//! What the shapes found on a page do not depend on, and how they lie to
//! each other in points.
use crate::bounds::{
    lemma_nearest_zero, lemma_over_between, lemma_plus_nonneg, lemma_power, lemma_whole_exact,
    lemma_whole_range, power,
};
use crate::clearance::{lemma_columns_ignore_padding, same_columns};
use crate::detect::{
    band_bot, band_in_points, band_top, border, box_in_points, boxes_in_points, detected,
    header_boxes, header_end, header_scan_end, height_in_points, is_header, is_strip, is_system,
    lemma_bands_do_not_overlap, lemma_header_ends_above, lemma_usable, region, scan_bot, scan_top, staff_boxes,
    stave_tops, usable, whole_systems, PageBands, PageScale, StripShape, INCH,
};
use crate::feasible::lemma_filter_of_inked_page;
use crate::image::GrayImage;
use crate::monotone::{lemma_minus_anti, lemma_times_mono, lemma_units_nonneg};
use crate::placing::{
    apart, lemma_band_is_upright, lemma_staves_are_apart, on_rows, row_of, MOST_ROWS,
};
use crate::protrusions::{protrusion_boxes, PixelBox};
use crate::pruning::all_finite;
use crate::rounding::{lemma_units_mono, units};
use crate::signal::TWO;
use crate::single::{one_units, whole, Single};
use crate::upright::{all_upright, lemma_box_starts_at_edge, lemma_boxes_are_upright};
use vstd::arithmetic::power2::*;
use vstd::prelude::*;

verus! {

/// Two shapes with the same base, and with protrusions at the same places
/// from left to right.
pub open spec fn alike(a: &StripShape, b: &StripShape) -> bool {
    &&& a.base == b.base
    &&& a.protrusions@.len() == b.protrusions@.len()
    &&& forall|k: int|
        0 <= k < a.protrusions@.len() ==> (#[trigger] a.protrusions@[k]).x_left
            == b.protrusions@[k].x_left && a.protrusions@[k].x_right == b.protrusions@[k].x_right
}

/// Two shapes that are the same.
pub open spec fn equal(a: &StripShape, b: &StripShape) -> bool {
    a.base == b.base && a.protrusions@ == b.protrusions@
}

proof fn lemma_staff_boxes(
    img: &GrayImage,
    tops: Seq<Single>,
    spacing: Single,
    p: Single,
    q: Single,
    k: int,
)
    ensures
        same_columns(
            staff_boxes(img, tops, spacing, p, k),
            staff_boxes(img, tops, spacing, q, k),
        ),
{
    let top = band_top(img, tops, spacing, k);
    let bot = band_bot(img, tops, spacing, k);
    let up = scan_top(img, tops, spacing, k);
    let down = scan_bot(img, tops, spacing, k);
    let a = region(spacing, p, up, top, true);
    let b = region(spacing, q, up, top, true);
    let c = region(spacing, p, bot, down, false);
    let d = region(spacing, q, bot, down, false);
    lemma_columns_ignore_padding(img, a, b);
    lemma_columns_ignore_padding(img, c, d);
    let first = staff_boxes(img, tops, spacing, p, k);
    let second = staff_boxes(img, tops, spacing, q, k);
    let above = if up.lt(top) {
        protrusion_boxes(img, a).len() as int
    } else {
        0
    };
    assert forall|i: int| 0 <= i < first.len() implies (#[trigger] first[i]).x_left
        == second[i].x_left && first[i].x_right == second[i].x_right by {
        if i < above {
            assert(first[i] == protrusion_boxes(img, a)[i]);
            assert(second[i] == protrusion_boxes(img, b)[i]);
        } else {
            assert(first[i] == protrusion_boxes(img, c)[i - above]);
            assert(second[i] == protrusion_boxes(img, d)[i - above]);
        }
    }
}

proof fn lemma_header_boxes(
    img: &GrayImage,
    tops: Seq<Single>,
    spacing: Single,
    p: Single,
    q: Single,
)
    ensures
        same_columns(
            header_boxes(img, tops, spacing, p),
            header_boxes(img, tops, spacing, q),
        ),
{
    let top = header_end(tops, spacing);
    let end = header_scan_end(tops, spacing);
    let a = region(spacing, p, top, end, false);
    let b = region(spacing, q, top, end, false);
    lemma_columns_ignore_padding(img, a, b);
    let first = header_boxes(img, tops, spacing, p);
    let second = header_boxes(img, tops, spacing, q);
    if top.plus(Single { bits: TWO }).lt(end) {
        assert forall|i: int| 0 <= i < first.len() implies (#[trigger] first[i]).x_left
            == second[i].x_left && first[i].x_right == second[i].x_right by {
            assert(protrusion_boxes(img, a)[i].x_left == protrusion_boxes(img, b)[i].x_left);
        }
    }
}

proof fn lemma_boxes_in_points(
    a: Seq<PixelBox>,
    b: Seq<PixelBox>,
    first: PageScale,
    second: PageScale,
)
    requires
        same_columns(a, b),
        first.per_pixel == second.per_pixel,
    ensures
        boxes_in_points(a, first).len() == boxes_in_points(b, second).len(),
        forall|k: int|
            0 <= k < boxes_in_points(a, first).len() ==> (#[trigger] boxes_in_points(
                a,
                first,
            )[k]).x_left == boxes_in_points(b, second)[k].x_left && boxes_in_points(
                a,
                first,
            )[k].x_right == boxes_in_points(b, second)[k].x_right,
{
    assert forall|k: int| 0 <= k < boxes_in_points(a, first).len() implies (
    #[trigger] boxes_in_points(a, first)[k]).x_left == boxes_in_points(b, second)[k].x_left
        && boxes_in_points(a, first)[k].x_right == boxes_in_points(b, second)[k].x_right by {
        assert(a[k].x_left == b[k].x_left);
        assert(boxes_in_points(a, first)[k] == box_in_points(a[k], first));
        assert(boxes_in_points(b, second)[k] == box_in_points(b[k], second));
    }
}

proof fn lemma_strips_alike(
    a: &StripShape,
    b: &StripShape,
    img: &GrayImage,
    tops: Seq<Single>,
    spacing: Single,
    first: PageScale,
    second: PageScale,
    k: int,
)
    requires
        is_strip(a, img, tops, spacing, first, k),
        is_strip(b, img, tops, spacing, second, k),
        second == (PageScale { pad: second.pad, ..first }),
    ensures
        alike(a, b),
        first == second ==> equal(a, b),
{
    lemma_staff_boxes(img, tops, spacing, first.pad, second.pad, k);
    lemma_boxes_in_points(
        staff_boxes(img, tops, spacing, first.pad, k),
        staff_boxes(img, tops, spacing, second.pad, k),
        first,
        second,
    );
}

/// The padding moves the far edges of protrusions and nothing else: with
/// another padding the same page has as many systems, with the same bases
/// and header, and protrusions at the same places from left to right. With
/// the same padding it has the same shapes: nothing else is looked at.
pub proof fn lemma_bases_ignore_padding(
    a: &PageBands,
    b: &PageBands,
    img: &GrayImage,
    spacing: Option<Single>,
    height: Single,
    dpi: u32,
    f: Single,
    g: Single,
)
    requires
        detected(a, img, spacing, height, dpi, f),
        detected(b, img, spacing, height, dpi, g),
    ensures
        match (a, b) {
            (PageBands::FullPage, PageBands::FullPage) => true,
            (
                PageBands::Systems { systems: s, header: h },
                PageBands::Systems { systems: t, header: i },
            ) => {
                &&& s@.len() == t@.len()
                &&& alike(h, i)
                &&& f == g ==> equal(h, i)
                &&& forall|n: int, j: int|
                    0 <= n < s@.len() && 0 <= j < 4 ==> alike(
                        &#[trigger] s@[n]@[j],
                        &t@[n]@[j],
                    ) && (f == g ==> equal(&s@[n]@[j], &t@[n]@[j]))
            },
            _ => false,
        },
{
    match (a, b) {
        (
            PageBands::Systems { systems: s, header: h },
            PageBands::Systems { systems: t, header: i },
        ) => {
            let sp = spacing->0;
            let tops = whole_systems(stave_tops(img, sp));
            let per_pixel = Single { bits: INCH }.over(whole(dpi as int));
            let first = PageScale { height, per_pixel, pad: f.times(sp) };
            let second = PageScale { height, per_pixel, pad: g.times(sp) };
            lemma_header_boxes(img, tops, sp, first.pad, second.pad);
            lemma_boxes_in_points(
                header_boxes(img, tops, sp, first.pad),
                header_boxes(img, tops, sp, second.pad),
                first,
                second,
            );
            assert(is_header(h, img, tops, sp, first));
            assert(is_header(i, img, tops, sp, second));
            assert forall|n: int, j: int| 0 <= n < s@.len() && 0 <= j < 4 implies alike(
                &#[trigger] s@[n]@[j],
                &t@[n]@[j],
            ) && (f == g ==> equal(&s@[n]@[j], &t@[n]@[j])) by {
                assert(is_system(s@[n], img, tops, sp, first, n));
                assert(is_system(t@[n], img, tops, sp, second, n));
                assert(is_strip(&s@[n]@[j], img, tops, sp, first, 4 * n + j)) by {
                    if j == 0 {
                    } else if j == 1 {
                    } else if j == 2 {
                    } else {
                        assert(j == 3);
                    }
                }
                assert(is_strip(&t@[n]@[j], img, tops, sp, second, 4 * n + j)) by {
                    if j == 0 {
                    } else if j == 1 {
                    } else if j == 2 {
                    } else {
                        assert(j == 3);
                    }
                }
                lemma_strips_alike(
                    &s@[n]@[j],
                    &t@[n]@[j],
                    img,
                    tops,
                    sp,
                    first,
                    second,
                    4 * n + j,
                );
            }
        },
        _ => {},
    }
}

/// A page in whose points can be reckoned: it has a finite height, and its
/// pixels a size.
pub open spec fn measurable(scale: PageScale) -> bool {
    &&& scale.height.finite()
    &&& (Single { bits: 0 }).le(scale.height)
    &&& scale.per_pixel.finite()
    &&& (Single { bits: 0 }).lt(scale.per_pixel)
}

/// Rows farther down the page are no higher up in points.
pub proof fn lemma_points_fall(y: Single, z: Single, scale: PageScale)
    requires
        y.le(z),
        measurable(scale),
    ensures
        height_in_points(z, scale).le(height_in_points(y, scale)),
{
    lemma_times_mono(y, z, scale.per_pixel);
    let a = y.times(scale.per_pixel);
    let b = z.times(scale.per_pixel);
    lemma_minus_anti(scale.height, a, b);
}

/// The bands of neighbouring staves do not overlap in points either: the
/// lower one starts no higher than the upper one ends.
pub proof fn lemma_bands_do_not_overlap_in_points(
    img: &GrayImage,
    tops: Seq<Single>,
    spacing: Single,
    scale: PageScale,
    k: int,
)
    requires
        img.height > 0,
        all_finite(tops),
        usable(spacing),
        measurable(scale),
        0 <= k < tops.len() - 1,
    ensures
        ({
            let upper = band_in_points(
                band_top(img, tops, spacing, k),
                band_bot(img, tops, spacing, k),
                scale,
            );
            let lower = band_in_points(
                band_top(img, tops, spacing, k + 1),
                band_bot(img, tops, spacing, k + 1),
                scale,
            );
            lower.y_top.le(upper.y_bot)
        }),
{
    lemma_bands_do_not_overlap(img, tops, spacing, k);
    let bot = band_bot(img, tops, spacing, k);
    let middle = border(img, tops, spacing, k);
    let top = band_top(img, tops, spacing, k + 1);
    lemma_points_fall(bot, middle, scale);
    lemma_points_fall(middle, top, scale);
}

/// The first band starts no higher in points than the header ends.
pub proof fn lemma_header_ends_above_in_points(
    img: &GrayImage,
    tops: Seq<Single>,
    spacing: Single,
    scale: PageScale,
)
    requires
        tops.len() > 0,
        measurable(scale),
    ensures
        height_in_points(band_top(img, tops, spacing, 0), scale).le(
            height_in_points(header_end(tops, spacing), scale),
        ),
{
    lemma_header_ends_above(img, tops, spacing);
    lemma_points_fall(header_end(tops, spacing), band_top(img, tops, spacing, 0), scale);
}

/// A page of a finite height, rendered at any resolution, can be reckoned
/// with in points.
pub proof fn lemma_pages_are_measurable(height: Single, dpi: u32, pad: Single)
    requires
        height.finite(),
        (Single { bits: 0 }).le(height),
        dpi > 0,
    ensures
        measurable(
            (PageScale {
                height,
                per_pixel: (Single { bits: INCH }).over(whole(dpi as int)),
                pad,
            }),
        ),
{
    let a = Single { bits: INCH };
    let b = whole(dpi as int);
    let one = one_units();
    lemma_whole_range(dpi as int);
    lemma_pow2_pos(149);
    lemma2_to64();
    lemma_power(6);
    lemma_power(7);
    lemma_power(-26);
    lemma_pow2_adds(6, 149);
    lemma_pow2_adds(7, 149);
    lemma_pow2_adds(26, 123);
    lemma_pow2_adds(32, 123);
    lemma_units_mono(power(6), a.mag());
    lemma_units_mono(a.mag(), power(7));
    let n = units(a.mag());
    let d = units(b.mag());
    let lo = units(power(-26));
    assert(64 * one <= n <= 128 * one);
    assert(one == 0x400_0000 * lo);
    assert(lo * d <= n * one <= (128 * one) * d) by (nonlinear_arith)
        requires
            64 * one <= n <= 128 * one,
            one <= d <= 0x1_0000_0000 * one,
            one == 0x400_0000 * lo,
            lo > 0,
            one > 0,
    ;
    lemma_over_between(a, b, power(-26), power(7));
}

/// A shape whose base and protrusions have their bottoms not above their
/// tops, in points.
pub open spec fn is_upright(shape: &StripShape) -> bool {
    &&& shape.base.y_bot.le(shape.base.y_top)
    &&& forall|k: int|
        0 <= k < shape.protrusions@.len() ==> (#[trigger] shape.protrusions@[k]).y_bot.le(
            shape.protrusions@[k].y_top,
        )
}

proof fn lemma_upright_in_points(s: Seq<PixelBox>, scale: PageScale)
    requires
        all_upright(s),
        measurable(scale),
    ensures
        forall|k: int|
            0 <= k < boxes_in_points(s, scale).len() ==> (#[trigger] boxes_in_points(
                s,
                scale,
            )[k]).y_bot.le(boxes_in_points(s, scale)[k].y_top),
{
    assert forall|k: int| 0 <= k < boxes_in_points(s, scale).len() implies (
    #[trigger] boxes_in_points(s, scale)[k]).y_bot.le(boxes_in_points(s, scale)[k].y_top) by {
        assert(s[k].y_top.le(s[k].y_bot));
        assert(boxes_in_points(s, scale)[k] == box_in_points(s[k], scale));
        lemma_points_fall(s[k].y_top, s[k].y_bot, scale);
    }
}

/// The rectangles that reach out of a staff's band are upright.
proof fn lemma_staff_boxes_upright(
    img: &GrayImage,
    tops: Seq<Single>,
    spacing: Single,
    pad: Single,
    k: int,
)
    requires
        img.height > 0,
        !pad.lt(Single { bits: 0 }),
    ensures
        all_upright(staff_boxes(img, tops, spacing, pad, k)),
{
    let top = band_top(img, tops, spacing, k);
    let bot = band_bot(img, tops, spacing, k);
    let up = scan_top(img, tops, spacing, k);
    let down = scan_bot(img, tops, spacing, k);
    let a = region(spacing, pad, up, top, true);
    let b = region(spacing, pad, bot, down, false);
    let all = staff_boxes(img, tops, spacing, pad, k);
    let above = if up.lt(top) {
        lemma_boxes_are_upright(img, a);
        protrusion_boxes(img, a).len() as int
    } else {
        0
    };
    if bot.lt(down) {
        lemma_boxes_are_upright(img, b);
    }
    assert forall|i: int| 0 <= i < all.len() implies (#[trigger] all[i]).y_top.le(all[i].y_bot) by {
        if i < above {
            assert(all[i] == protrusion_boxes(img, a)[i]);
        } else {
            assert(all[i] == protrusion_boxes(img, b)[i - above]);
        }
    }
}

/// The rectangles that reach out of the header are upright.
proof fn lemma_header_boxes_upright(
    img: &GrayImage,
    tops: Seq<Single>,
    spacing: Single,
    pad: Single,
)
    requires
        img.height > 0,
        !pad.lt(Single { bits: 0 }),
    ensures
        all_upright(header_boxes(img, tops, spacing, pad)),
{
    let top = header_end(tops, spacing);
    let end = header_scan_end(tops, spacing);
    let two = Single { bits: TWO };
    let a = region(spacing, pad, top, end, false);
    let all = header_boxes(img, tops, spacing, pad);
    if top.plus(two).lt(end) {
        lemma_boxes_are_upright(img, a);
        lemma_plus_nonneg(top, two);
        assert forall|i: int| 0 <= i < all.len() implies (#[trigger] all[i]).y_top.le(
            all[i].y_bot,
        ) by {
            let b = protrusion_boxes(img, a)[i];
            assert(b.y_top.le(b.y_bot));
            lemma_box_starts_at_edge(img, a, i);
        }
    }
}

/// A number of pixels that is not below zero, times a distance, is none
/// either.
proof fn lemma_padding_sign(padding: Single, spacing: Single)
    requires
        usable(spacing),
        !padding.lt(Single { bits: 0 }),
    ensures
        !padding.times(spacing).lt(Single { bits: 0 }),
{
    if !padding.nan() {
        let zero = Single { bits: 0 };
        lemma_times_mono(zero, padding, spacing);
        lemma_units_nonneg(spacing.mag());
        assert(units(0) == 0);
        assert(0 * units(spacing.mag()) == 0);
        lemma_pow2_pos(149);
        lemma_nearest_zero(one_units());
        assert(zero.times(spacing).rank() == 0);
    }
}

/// No shape on a page stands on its head: the bottom of a base, and of what
/// reaches out of it, is not above its top.
pub proof fn lemma_shapes_are_upright(
    bands: &PageBands,
    img: &GrayImage,
    spacing: Single,
    height: Single,
    dpi: u32,
    padding: Single,
)
    requires
        img.wf(),
        img.height <= MOST_ROWS,
        usable(spacing),
        height.finite(),
        (Single { bits: 0 }).le(height),
        dpi > 0,
        !padding.lt(Single { bits: 0 }),
        detected(bands, img, Some(spacing), height, dpi, padding),
    ensures
        match bands {
            PageBands::FullPage => true,
            PageBands::Systems { systems, header } => {
                &&& is_upright(header)
                &&& forall|n: int, j: int|
                    0 <= n < systems@.len() && 0 <= j < 4 ==> is_upright(
                        &#[trigger] systems@[n]@[j],
                    )
            },
        },
{
    match bands {
        PageBands::FullPage => {},
        PageBands::Systems { systems, header } => {
            let all = stave_tops(img, spacing);
            let tops = whole_systems(all);
            let per_pixel = Single { bits: INCH }.over(whole(dpi as int));
            let scale = PageScale { height, per_pixel, pad: padding.times(spacing) };
            lemma_usable(spacing);
            lemma_filter_of_inked_page(img, spacing);
            lemma_staves_are_apart(img, spacing);
            assert forall|k: int| 0 <= k < tops.len() implies #[trigger] tops[k] == all[k] by {}
            assert(on_rows(tops, img.height as int));
            assert(apart(tops, spacing));
            lemma_pages_are_measurable(height, dpi, scale.pad);
            lemma_padding_sign(padding, spacing);
            lemma_header_boxes_upright(img, tops, spacing, scale.pad);
            lemma_upright_in_points(header_boxes(img, tops, spacing, scale.pad), scale);
            lemma_points_fall(header_end(tops, spacing), header_end(tops, spacing), scale);
            assert(is_upright(header));
            assert forall|n: int, j: int| 0 <= n < systems@.len() && 0 <= j < 4 implies is_upright(
                &#[trigger] systems@[n]@[j],
            ) by {
                let k = 4 * n + j;
                assert(is_system(systems@[n], img, tops, spacing, scale, n));
                assert(is_strip(&systems@[n]@[j], img, tops, spacing, scale, k)) by {
                    if j == 0 {
                    } else if j == 1 {
                    } else if j == 2 {
                    } else {
                        assert(j == 3);
                    }
                }
                lemma_band_is_upright(img, tops, spacing, k);
                lemma_points_fall(
                    band_top(img, tops, spacing, k),
                    band_bot(img, tops, spacing, k),
                    scale,
                );
                lemma_staff_boxes_upright(img, tops, spacing, scale.pad, k);
                lemma_upright_in_points(
                    staff_boxes(img, tops, spacing, scale.pad, k),
                    scale,
                );
            }
        },
    }
}

/// The strips of a page run down it without overlapping: within a system
/// the four instruments follow each other, each system follows the one
/// above it, and the header, which starts at the top of the page, ends above
/// all of them.
pub proof fn lemma_strips_run_down_the_page(
    bands: &PageBands,
    img: &GrayImage,
    spacing: Single,
    height: Single,
    dpi: u32,
    padding: Single,
)
    requires
        img.wf(),
        img.height <= MOST_ROWS,
        usable(spacing),
        height.finite(),
        (Single { bits: 0 }).le(height),
        dpi > 0,
        detected(bands, img, Some(spacing), height, dpi, padding),
    ensures
        match bands {
            PageBands::FullPage => true,
            PageBands::Systems { systems, header } => {
                &&& header.base.y_top == height
                &&& systems@.len() > 0
                &&& systems@[0]@[0].base.y_top.le(header.base.y_bot)
                &&& forall|s: int, i: int|
                    0 <= s < systems@.len() && 0 <= i < 3 ==> systems@[s]@[i + 1].base.y_top.le(
                        (#[trigger] systems@[s]@[i]).base.y_bot,
                    )
                &&& forall|s: int|
                    0 <= s < systems@.len() - 1 ==> systems@[s + 1]@[0].base.y_top.le(
                        (#[trigger] systems@[s])@[3].base.y_bot,
                    )
            },
        },
{
    match bands {
        PageBands::FullPage => {},
        PageBands::Systems { systems, header } => {
            let all = stave_tops(img, spacing);
            let tops = whole_systems(all);
            let per_pixel = Single { bits: INCH }.over(whole(dpi as int));
            let scale = PageScale { height, per_pixel, pad: padding.times(spacing) };
            lemma_usable(spacing);
            lemma_filter_of_inked_page(img, spacing);
            lemma_staves_are_apart(img, spacing);
            assert forall|k: int| 0 <= k < tops.len() implies (#[trigger] tops[k]).finite() by {
                assert(tops[k] == all[k]);
                assert(0 <= row_of(all[k]) < img.height && all[k] == whole(row_of(all[k])));
                lemma_whole_exact(row_of(all[k]));
            }
            assert(all_finite(tops));
            lemma_pages_are_measurable(height, dpi, scale.pad);
            lemma_header_ends_above_in_points(img, tops, spacing, scale);
            assert(is_system(systems@[0], img, tops, spacing, scale, 0));
            assert forall|s: int, i: int| 0 <= s < systems@.len() && 0 <= i < 3 implies systems@[s]@[i
                + 1].base.y_top.le((#[trigger] systems@[s]@[i]).base.y_bot) by {
                let k = 4 * s + i;
                assert(is_system(systems@[s], img, tops, spacing, scale, s));
                lemma_bands_do_not_overlap_in_points(img, tops, spacing, scale, k);
                if i == 0 {
                } else if i == 1 {
                } else {
                    assert(i == 2);
                }
            }
            assert forall|s: int| 0 <= s < systems@.len() - 1 implies systems@[s
                + 1]@[0].base.y_top.le((#[trigger] systems@[s])@[3].base.y_bot) by {
                assert(is_system(systems@[s], img, tops, spacing, scale, s));
                assert(is_system(systems@[s + 1], img, tops, spacing, scale, s + 1));
                lemma_bands_do_not_overlap_in_points(img, tops, spacing, scale, 4 * s + 3);
            }
        },
    }
}

} // verus!
