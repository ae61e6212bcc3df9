//! What reaches out of the band of a staff, and out of the header, is kept
//! with it.
use crate::bounds::{lemma_order_is_by_value, lemma_whole_exact, lemma_whole_mono};
use crate::covering::{
    column_left, column_right, in_region, inked_between, is_column, joined, lemma_group_of_box,
    lemma_ink_is_covered,
};
use crate::detect::{
    band_bot, band_top, border, box_in_points, column_width, detected, header_boxes, header_end,
    header_scan_end, height_in_points, is_strip, is_system, lemma_usable, lower_limit, region,
    scan_bot, scan_top, staff_boxes, stave_tops, usable, whole_systems, PageBands, PageScale, INCH,
};
use crate::image::GrayImage;
use crate::monotone::lemma_times_mono;
use crate::placing::MOST_ROWS;
use crate::protrusions::{columns, protrusion_boxes, PixelBox, Region};
use crate::rounding::{lemma_units_at, lemma_units_mono};
use crate::signal::TWO;
use crate::single::{one_units, whole, Single};
use crate::steadiness::{lemma_pages_are_measurable, lemma_points_fall};
use crate::upright::{lemma_box_starts_at_edge, lemma_row_number};
use crate::whitespace::{ink_left, ink_right, row_above, row_below};
use vstd::arithmetic::power2::*;
use vstd::prelude::*;

verus! {

/// The ink of a column in a row belongs to what starts at an edge: it lies
/// between that edge and the farthest that it may reach, and no more than
/// `gap` rows without ink lie on the way to it.
pub open spec fn belongs(img: &GrayImage, r: Region, j: int, y: int, gap: int) -> bool {
    let w = r.col_width as int;
    let x0 = column_left(img, w, j);
    let x1 = column_right(img, w, j);
    &&& is_column(img, w, j)
    &&& in_region(img, r, y)
    &&& inked_between(img, x0, x1, y)
    &&& joined(img, r, x0, x1, y, gap)
    &&& 0 <= gap <= 0x100_0000
    &&& gap <= 4 || 4 * (gap * one_units()) <= 3 * r.pad.value()
}

/// Ink above the band of a staff that is connected with it is kept with it,
/// up to the border to the staff above: a rectangle from the band reaches
/// over its whole column, and beyond it by the padding or to the top of the
/// page.
pub proof fn lemma_ink_above_a_band_is_kept(
    img: &GrayImage,
    tops: Seq<Single>,
    spacing: Single,
    pad: Single,
    k: int,
    j: int,
    y: int,
    gap: int,
) -> (n: int)
    requires
        img.wf(),
        usable(spacing),
        pad.finite(),
        0 < k < tops.len(),
        border(img, tops, spacing, k - 1).finite(),
        band_top(img, tops, spacing, k).finite(),
        belongs(
            img,
            (Region {
                top: border(img, tops, spacing, k - 1),
                bot: band_top(img, tops, spacing, k),
                col_width: column_width(spacing) as u32,
                pad,
                upwards: true,
            }),
            j,
            y,
            gap,
        ),
    ensures
        0 <= n < staff_boxes(img, tops, spacing, pad, k).len(),
        ({
            let b = staff_boxes(img, tops, spacing, pad, k)[n];
            let w = column_width(spacing);
            &&& b.x_left <= column_left(img, w, j)
            &&& column_right(img, w, j) <= b.x_right
            &&& b.y_bot == band_top(img, tops, spacing, k)
            &&& b.y_top.le(whole(y).minus(pad)) || b.y_top == (Single { bits: 0 })
        }),
{
    let top = band_top(img, tops, spacing, k);
    let up = border(img, tops, spacing, k - 1);
    let one = one_units();
    lemma_usable(spacing);
    lemma_pow2_pos(149);
    assert(y * one < (y + 1) * one) by (nonlinear_arith)
        requires
            one > 0,
    ;
    lemma_order_is_by_value(up, top);
    lemma_order_is_by_value(top, up);
    assert(scan_top(img, tops, spacing, k) == up);
    let r = region(spacing, pad, up, top, true);
    let i = lemma_ink_is_covered(img, r, j, y, gap);
    assert(staff_boxes(img, tops, spacing, pad, k)[i] == protrusion_boxes(img, r)[i]);
    i
}

/// Ink below the band of a staff that is connected with it is kept with it,
/// down to its lower limit: the border to the staff below, or the end of
/// the last system.
pub proof fn lemma_ink_below_a_band_is_kept(
    img: &GrayImage,
    tops: Seq<Single>,
    spacing: Single,
    pad: Single,
    k: int,
    j: int,
    y: int,
    gap: int,
) -> (n: int)
    requires
        img.wf(),
        usable(spacing),
        pad.finite(),
        0 <= k < tops.len(),
        lower_limit(img, tops, spacing, k).finite(),
        band_bot(img, tops, spacing, k).finite(),
        belongs(
            img,
            (Region {
                top: band_bot(img, tops, spacing, k),
                bot: lower_limit(img, tops, spacing, k),
                col_width: column_width(spacing) as u32,
                pad,
                upwards: false,
            }),
            j,
            y,
            gap,
        ),
    ensures
        0 <= n < staff_boxes(img, tops, spacing, pad, k).len(),
        ({
            let b = staff_boxes(img, tops, spacing, pad, k)[n];
            let w = column_width(spacing);
            &&& b.x_left <= column_left(img, w, j)
            &&& column_right(img, w, j) <= b.x_right
            &&& b.y_top == band_bot(img, tops, spacing, k)
            &&& whole(y).plus(pad).le(b.y_bot) || b.y_bot == whole(img.height as int)
        }),
{
    let bot = band_bot(img, tops, spacing, k);
    let down = lower_limit(img, tops, spacing, k);
    let one = one_units();
    lemma_usable(spacing);
    lemma_pow2_pos(149);
    assert(y * one < (y + 1) * one) by (nonlinear_arith)
        requires
            one > 0,
    ;
    lemma_order_is_by_value(bot, down);
    lemma_order_is_by_value(down, bot);
    assert(scan_bot(img, tops, spacing, k) == down);
    let r = region(spacing, pad, bot, down, false);
    let i = lemma_ink_is_covered(img, r, j, y, gap);
    let top = band_top(img, tops, spacing, k);
    let up = scan_top(img, tops, spacing, k);
    let above = if up.lt(top) {
        protrusion_boxes(img, region(spacing, pad, up, top, true))
    } else {
        Seq::empty()
    };
    let all = staff_boxes(img, tops, spacing, pad, k);
    assert(all[above.len() + i] == protrusion_boxes(img, r)[i]);
    above.len() + i
}

/// Every rectangle of a staff is attached to its band: it ends where the
/// band starts, or starts where the band ends. The first staff of a page has
/// none above it.
pub proof fn lemma_rectangles_touch_their_band(
    img: &GrayImage,
    tops: Seq<Single>,
    spacing: Single,
    pad: Single,
    k: int,
    n: int,
)
    requires
        0 <= k < tops.len(),
        0 <= n < staff_boxes(img, tops, spacing, pad, k).len(),
    ensures
        ({
            let b = staff_boxes(img, tops, spacing, pad, k)[n];
            ||| k > 0 && b.y_bot == band_top(img, tops, spacing, k)
            ||| b.y_top == band_bot(img, tops, spacing, k)
        }),
{
    let top = band_top(img, tops, spacing, k);
    let bot = band_bot(img, tops, spacing, k);
    let up = scan_top(img, tops, spacing, k);
    let down = scan_bot(img, tops, spacing, k);
    let a = region(spacing, pad, up, top, true);
    let b = region(spacing, pad, bot, down, false);
    let above = if up.lt(top) {
        protrusion_boxes(img, a)
    } else {
        Seq::empty()
    };
    let all = staff_boxes(img, tops, spacing, pad, k);
    if n < above.len() {
        assert(all[n] == protrusion_boxes(img, a)[n]);
        let r_top = row_below(img, a.top);
        let r_bot = row_above(img, a.bot);
        let cols = columns(img, ink_left(img), ink_right(img), r_top, r_bot, a);
        let group = lemma_group_of_box(img, cols, 0, a, n);
    } else {
        assert(all[n] == protrusion_boxes(img, b)[n - above.len()]);
        lemma_box_starts_at_edge(img, b, n - above.len());
    }
}

/// Ink below the header that is connected with it is kept with it, where
/// there is room for it: more than two rows.
pub proof fn lemma_ink_below_the_header_is_kept(
    img: &GrayImage,
    tops: Seq<Single>,
    spacing: Single,
    pad: Single,
    j: int,
    y: int,
    gap: int,
) -> (n: int)
    requires
        img.wf(),
        usable(spacing),
        pad.finite(),
        tops.len() > 0,
        header_end(tops, spacing).finite(),
        header_scan_end(tops, spacing).finite(),
        header_end(tops, spacing).plus(whole(2)).lt(header_scan_end(tops, spacing)),
        belongs(
            img,
            (Region {
                top: header_end(tops, spacing),
                bot: header_scan_end(tops, spacing),
                col_width: column_width(spacing) as u32,
                pad,
                upwards: false,
            }),
            j,
            y,
            gap,
        ),
    ensures
        0 <= n < header_boxes(img, tops, spacing, pad).len(),
        ({
            let b = header_boxes(img, tops, spacing, pad)[n];
            let end = header_scan_end(tops, spacing);
            let w = column_width(spacing);
            &&& b.x_left <= column_left(img, w, j)
            &&& column_right(img, w, j) <= b.x_right
            &&& b.y_top == header_end(tops, spacing)
            &&& b.y_bot.le(end)
            &&& whole(y).plus(pad).le(b.y_bot) || b.y_bot == whole(img.height as int) || b.y_bot
                == end
        }),
{
    let top = header_end(tops, spacing);
    let end = header_scan_end(tops, spacing);
    lemma_usable(spacing);
    lemma_two();
    let r = region(spacing, pad, top, end, false);
    let i = lemma_ink_is_covered(img, r, j, y, gap);
    let b = protrusion_boxes(img, r)[i];
    assert(header_boxes(img, tops, spacing, pad)[i] == (PixelBox { y_bot: b.y_bot.min(end), ..b }));
    i
}

proof fn lemma_two()
    ensures
        whole(2) == (Single { bits: TWO }),
{
    lemma2_to64();
    lemma_units_at(127, 0x80_0000);
    lemma_pow2_adds(127, 22);
    lemma_whole_exact(2);
    let two = Single { bits: TWO };
    if whole(2).mag() < two.mag() {
        lemma_units_mono(whole(2).mag(), two.mag());
    }
    if two.mag() < whole(2).mag() {
        lemma_units_mono(two.mag(), whole(2).mag());
    }
}

/// Every rectangle of the header starts where the header ends, and none
/// reaches farther down than the header's ink may.
pub proof fn lemma_header_rectangles_stay_above_the_staff(
    img: &GrayImage,
    tops: Seq<Single>,
    spacing: Single,
    pad: Single,
    n: int,
)
    requires
        tops.len() > 0,
        0 <= n < header_boxes(img, tops, spacing, pad).len(),
    ensures
        header_boxes(img, tops, spacing, pad)[n].y_top == header_end(tops, spacing),
        !header_scan_end(tops, spacing).lt(header_boxes(img, tops, spacing, pad)[n].y_bot),
{
    let top = header_end(tops, spacing);
    let end = header_scan_end(tops, spacing);
    let r = region(spacing, pad, top, end, false);
    let b = protrusion_boxes(img, r)[n];
    assert(header_boxes(img, tops, spacing, pad)[n] == (PixelBox { y_bot: b.y_bot.min(end), ..b }));
    lemma_box_starts_at_edge(img, r, n);
}

/// Ink above a staff that is connected with its band is kept in the strip of
/// its instrument, in points: one of the strip's protrusions starts at the
/// strip's upper edge and reaches over the ink, and beyond it by the padding,
/// which is so many line distances, or to the top of the page.
pub proof fn lemma_ink_of_a_strip_is_kept(
    bands: &PageBands,
    img: &GrayImage,
    spacing: Single,
    height: Single,
    dpi: u32,
    padding: Single,
    s: int,
    i: int,
    j: int,
    y: int,
    gap: int,
) -> (n: int)
    requires
        img.wf(),
        img.height <= MOST_ROWS,
        usable(spacing),
        height.finite(),
        (Single { bits: 0 }).le(height),
        dpi > 0,
        detected(bands, img, Some(spacing), height, dpi, padding),
        *bands is Systems,
        0 <= s < bands->systems@.len(),
        0 <= i < 4,
        4 * s + i > 0,
        padding.times(spacing).finite(),
        ({
            let tops = whole_systems(stave_tops(img, spacing));
            let k = 4 * s + i;
            &&& border(img, tops, spacing, k - 1).finite()
            &&& band_top(img, tops, spacing, k).finite()
            &&& belongs(
                img,
                (Region {
                    top: border(img, tops, spacing, k - 1),
                    bot: band_top(img, tops, spacing, k),
                    col_width: column_width(spacing) as u32,
                    pad: padding.times(spacing),
                    upwards: true,
                }),
                j,
                y,
                gap,
            )
        }),
    ensures
        0 <= n < bands->systems@[s]@[i].protrusions@.len(),
        ({
            let strip = bands->systems@[s]@[i];
            let p = strip.protrusions@[n];
            let per_pixel = (Single { bits: INCH }).over(whole(dpi as int));
            let scale = PageScale { height, per_pixel, pad: padding.times(spacing) };
            let w = column_width(spacing);
            let edge = whole(y).minus(padding.times(spacing));
            &&& p.y_bot == strip.base.y_top
            &&& p.x_left.le(whole(column_left(img, w, j)).times(per_pixel))
            &&& whole(column_right(img, w, j)).times(per_pixel).le(p.x_right)
            &&& height_in_points(edge, scale).le(p.y_top) || p.y_top == height_in_points(
                Single { bits: 0 },
                scale,
            )
        }),
{
    let systems = bands->systems;
    let tops = whole_systems(stave_tops(img, spacing));
    let per_pixel = (Single { bits: INCH }).over(whole(dpi as int));
    let pad = padding.times(spacing);
    let scale = PageScale { height, per_pixel, pad };
    let k = 4 * s + i;
    let w = column_width(spacing);
    lemma_usable(spacing);
    assert(is_system(systems@[s], img, tops, spacing, scale, s));
    assert(is_strip(&systems@[s]@[i], img, tops, spacing, scale, k)) by {
        if i == 0 {
        } else if i == 1 {
        } else if i == 2 {
        } else {
            assert(i == 3);
        }
    }
    let n = lemma_ink_above_a_band_is_kept(img, tops, spacing, pad, k, j, y, gap);
    let b = staff_boxes(img, tops, spacing, pad, k)[n];
    let p = systems@[s]@[i].protrusions@[n];
    assert(p == box_in_points(b, scale));
    lemma_pages_are_measurable(height, dpi, pad);
    let x0 = column_left(img, w, j);
    let x1 = column_right(img, w, j);
    assert(0 <= x0 && x1 <= img.width) by {
        assert(j * w >= 0) by (nonlinear_arith)
            requires
                j >= 0,
                w >= 4,
        ;
    }
    lemma_whole_mono(b.x_left as int, x0);
    lemma_whole_mono(x1, b.x_right as int);
    lemma_row_number(b.x_left as int);
    lemma_row_number(x0);
    lemma_row_number(x1);
    lemma_row_number(b.x_right as int);
    lemma_times_mono(whole(b.x_left as int), whole(x0), per_pixel);
    lemma_times_mono(whole(x1), whole(b.x_right as int), per_pixel);
    let edge = whole(y).minus(pad);
    if b.y_top.le(edge) {
        lemma_points_fall(b.y_top, edge, scale);
    }
    n
}

} // verus!
