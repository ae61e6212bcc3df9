//! Detecting the systems of a page and each instrument's region in them.
use crate::bounds::{
    lemma_plus_number, lemma_power, lemma_times_between, lemma_whole_exact, lemma_whole_range,
    power,
};
use crate::feasible::{has_ink, lemma_filter_of_inked_page, lemma_round_range};
use crate::image::GrayImage;
use crate::order::{ascending, lemma_sorted, sorted};
use crate::placing::lemma_span;
use crate::protrusions::{protrusion_boxes, scan_protrusions_in_region, PixelBox, Region};
use crate::pruning::{all_finite, lemma_pruned_is_a_selection, pruned, remove_false_staves};
use crate::rounding::{lemma_nearest_rounds, lemma_units_at, lemma_units_mono, units};
use crate::signal::{
    is_spectrum, lemma_spacing_range, levels, pick_spacing, row_signal, sample_left, sample_right,
    spacing_of, staff_line_spacing, THREE, TWO,
};
use crate::single::{one_units, whole, Single};
use crate::staves::{
    comb_convolve, combed, lemma_peaks_apart, non_max_suppress, peak_threshold, peaks_of,
};
use crate::whitespace::{
    all_inked, find_gap_edges, gap_edges, ink_rows, lemma_widest, midpoint, row_above, row_below,
    row_counts, widest,
};
use vstd::arithmetic::power2::*;
use vstd::prelude::*;

verus! {

/// 4, the line distances that a staff spans.
pub const FOUR: u32 = 0x4080_0000;

/// 1.8, the staff spans around a staff that hold no other.
pub const STAFF_REACH: u32 = 0x3fe6_6666;

/// 4.5, the line distances above the first staff where the header ends.
pub const TOP_PAD: u32 = 0x4090_0000;

/// 2.5, the line distances that a band keeps around its staff.
pub const BAND_PAD: u32 = 0x4020_0000;

/// 1.5, the line distances above the first staff that stay free of the
/// header.
pub const HEADER_PAD: u32 = 0x3fc0_0000;

/// 72, the points in an inch.
pub const INCH: u32 = 0x4290_0000;

/// How many staves a system has.
pub const STAVES: usize = 4;

/// One instrument's band within one system, in PDF points from the bottom
/// of the page.
#[derive(Clone, Copy, Debug, PartialEq, Eq, Structural)]
pub struct Band {
    pub y_top: Single,
    pub y_bot: Single,
}

/// A rectangle that reaches beyond the base band, in PDF points.
#[derive(Clone, Copy, Debug, PartialEq, Eq, Structural)]
pub struct Protrusion {
    pub x_left: Single,
    pub x_right: Single,
    pub y_top: Single,
    pub y_bot: Single,
}

/// The clip shape of one instrument's strip: a base band, and what reaches
/// beyond it.
#[derive(Clone, Debug)]
pub struct StripShape {
    pub base: Band,
    pub protrusions: Vec<Protrusion>,
}

/// What was found on a page.
pub enum PageBands {
    /// The systems, each with the shapes of violin 1, violin 2, viola and
    /// cello; and the shape of what stands above the first system.
    Systems { systems: Vec<[StripShape; 4]>, header: StripShape },
    /// No staves: the whole page goes to every part.
    FullPage,
}

/// What goes to a part of a page: a strip of it, or all of it.
pub enum Cut {
    Strip(StripShape),
    Page,
}

/// What a `Cut` says: the band and the protrusions of a strip, or the page.
#[verifier::ext_equal]
pub enum CutView {
    Strip(Band, Seq<Protrusion>),
    Page,
}

impl Cut {
    pub open spec fn view(&self) -> CutView {
        match self {
            Cut::Strip(shape) => CutView::Strip(shape.base, shape.protrusions@),
            Cut::Page => CutView::Page,
        }
    }
}

/// What is known of a page beside its picture.
#[derive(Clone, Copy, Debug, PartialEq, Eq, Structural)]
pub struct PageScale {
    /// The height of the page in points.
    pub height: Single,
    /// The points that a pixel is wide.
    pub per_pixel: Single,
    /// The padding around ink, in pixels.
    pub pad: Single,
}

impl StripShape {
    /// The shape has this base and these protrusions.
    pub open spec fn is(&self, base: Band, protrusions: Seq<Protrusion>) -> bool {
        self.base == base && self.protrusions@ == protrusions
    }

    /// A shape that is the same.
    pub fn copy(&self) -> (r: StripShape)
        ensures
            r.is(self.base, self.protrusions@),
    {
        let mut protrusions: Vec<Protrusion> = Vec::new();
        let mut i: usize = 0;
        while i < self.protrusions.len()
            invariant
                i <= self.protrusions@.len(),
                protrusions@ == self.protrusions@.take(i as int),
            decreases self.protrusions@.len() - i,
        {
            protrusions.push(self.protrusions[i]);
            i = i + 1;
            assert(protrusions@ =~= self.protrusions@.take(i as int));
        }
        assert(self.protrusions@.take(i as int) =~= self.protrusions@);
        StripShape { base: self.base, protrusions }
    }
}

/// The height of a staff with this distance between its lines.
pub open spec fn staff_span(spacing: Single) -> Single {
    Single { bits: FOUR }.times(spacing)
}

/// A multiple of the distance between staff lines.
pub open spec fn lines(k: u32, spacing: Single) -> Single {
    Single { bits: k }.times(spacing)
}

/// The tops of the staves of a page, in rows from its top.
pub open spec fn stave_tops(img: &GrayImage, spacing: Single) -> Seq<Single> {
    let conv = combed(levels(img), spacing);
    let found = peaks_of(conv, staff_span(spacing).times(Single { bits: STAFF_REACH }));
    pruned(sorted(found.map_values(|i: int| whole(i))), conv)
}

/// Those of the staves that make whole systems.
pub open spec fn whole_systems(tops: Seq<Single>) -> Seq<Single> {
    tops.take(tops.len() as int / 4 * 4)
}

/// The bottom of staff `k`.
pub open spec fn staff_bot(tops: Seq<Single>, spacing: Single, k: int) -> Single {
    tops[k].plus(staff_span(spacing))
}

/// The border between staff `k` and the next: the middle of the widest
/// whitespace between them.
pub open spec fn border(img: &GrayImage, tops: Seq<Single>, spacing: Single, k: int) -> Single {
    let edges = gap_edges(img, staff_bot(tops, spacing, k), tops[k + 1]);
    midpoint(edges.0, edges.1)
}

/// Where the header ends.
pub open spec fn header_end(tops: Seq<Single>, spacing: Single) -> Single {
    tops[0].minus(lines(TOP_PAD, spacing)).max(Single { bits: 0 })
}

/// The farthest that the first staff's region can reach up, or any other
/// staff's: the end of the header, or the border to the staff above.
pub open spec fn upper_limit(img: &GrayImage, tops: Seq<Single>, spacing: Single, k: int) -> Single {
    if k == 0 {
        header_end(tops, spacing)
    } else {
        border(img, tops, spacing, k - 1)
    }
}

/// The farthest that a staff's region can reach down: three line distances
/// for the last one, the border to the staff below for any other.
pub open spec fn lower_limit(img: &GrayImage, tops: Seq<Single>, spacing: Single, k: int) -> Single {
    if k == tops.len() - 1 {
        staff_bot(tops, spacing, k).plus(lines(THREE, spacing)).min(whole(img.height as int))
    } else {
        border(img, tops, spacing, k)
    }
}

/// The top of the band of staff `k`: the upper limit, but no more than two
/// and a half line distances above the staff.
pub open spec fn band_top(img: &GrayImage, tops: Seq<Single>, spacing: Single, k: int) -> Single {
    let limit = upper_limit(img, tops, spacing, k);
    let tight = tops[k].minus(lines(BAND_PAD, spacing));
    if limit.lt(tight) {
        tight
    } else {
        limit
    }
}

/// The bottom of the band of staff `k`: the lower limit, but no more than
/// two and a half line distances below the staff.
pub open spec fn band_bot(img: &GrayImage, tops: Seq<Single>, spacing: Single, k: int) -> Single {
    let limit = lower_limit(img, tops, spacing, k);
    let tight = staff_bot(tops, spacing, k).plus(lines(BAND_PAD, spacing));
    if tight.lt(limit) {
        tight
    } else {
        limit
    }
}

/// The width of the columns that ink is looked for in: one line distance,
/// at least four pixels.
pub open spec fn column_width(spacing: Single) -> int {
    let w = spacing.nearest_whole(u32::MAX as int);
    if w < 4 {
        4
    } else {
        w
    }
}

/// How far up the ink of staff `k` is followed.
pub open spec fn scan_top(img: &GrayImage, tops: Seq<Single>, spacing: Single, k: int) -> Single {
    let base = band_top(img, tops, spacing, k);
    if k == 0 {
        base
    } else {
        border(img, tops, spacing, k - 1).min(base)
    }
}

/// How far down the ink of staff `k` is followed.
pub open spec fn scan_bot(img: &GrayImage, tops: Seq<Single>, spacing: Single, k: int) -> Single {
    let limit = lower_limit(img, tops, spacing, k);
    if k == tops.len() - 1 {
        limit
    } else {
        limit.max(band_bot(img, tops, spacing, k))
    }
}

/// A region to look through, between two heights.
pub open spec fn region(spacing: Single, pad: Single, top: Single, bot: Single, up: bool) -> Region {
    Region { top, bot, col_width: column_width(spacing) as u32, pad, upwards: up }
}

/// What reaches out of the band of staff `k`, above it and then below it.
pub open spec fn staff_boxes(
    img: &GrayImage,
    tops: Seq<Single>,
    spacing: Single,
    pad: Single,
    k: int,
) -> Seq<PixelBox> {
    let top = band_top(img, tops, spacing, k);
    let bot = band_bot(img, tops, spacing, k);
    let up = scan_top(img, tops, spacing, k);
    let down = scan_bot(img, tops, spacing, k);
    let above = if up.lt(top) {
        protrusion_boxes(img, region(spacing, pad, up, top, true))
    } else {
        Seq::empty()
    };
    let below = if bot.lt(down) {
        protrusion_boxes(img, region(spacing, pad, bot, down, false))
    } else {
        Seq::empty()
    };
    above + below
}

/// A height in points, from a row of pixels.
pub open spec fn height_in_points(y: Single, scale: PageScale) -> Single {
    scale.height.minus(y.times(scale.per_pixel)).clamp(Single { bits: 0 }, scale.height)
}

/// A band in points.
pub open spec fn band_in_points(top: Single, bot: Single, scale: PageScale) -> Band {
    Band { y_top: height_in_points(top, scale), y_bot: height_in_points(bot, scale) }
}

/// A rectangle in points.
pub open spec fn box_in_points(b: PixelBox, scale: PageScale) -> Protrusion {
    Protrusion {
        x_left: whole(b.x_left as int).times(scale.per_pixel),
        x_right: whole(b.x_right as int).times(scale.per_pixel),
        y_top: height_in_points(b.y_top, scale),
        y_bot: height_in_points(b.y_bot, scale),
    }
}

pub open spec fn boxes_in_points(s: Seq<PixelBox>, scale: PageScale) -> Seq<Protrusion> {
    s.map_values(|b: PixelBox| box_in_points(b, scale))
}

/// The shape of staff `k`'s strip.
pub open spec fn is_strip(
    shape: &StripShape,
    img: &GrayImage,
    tops: Seq<Single>,
    spacing: Single,
    scale: PageScale,
    k: int,
) -> bool {
    shape.is(
        band_in_points(
            band_top(img, tops, spacing, k),
            band_bot(img, tops, spacing, k),
            scale,
        ),
        boxes_in_points(staff_boxes(img, tops, spacing, scale.pad, k), scale),
    )
}

/// The shapes of the four staves of system `s`.
pub open spec fn is_system(
    system: [StripShape; 4],
    img: &GrayImage,
    tops: Seq<Single>,
    spacing: Single,
    scale: PageScale,
    s: int,
) -> bool {
    &&& is_strip(&system@[0], img, tops, spacing, scale, 4 * s)
    &&& is_strip(&system@[1], img, tops, spacing, scale, 4 * s + 1)
    &&& is_strip(&system@[2], img, tops, spacing, scale, 4 * s + 2)
    &&& is_strip(&system@[3], img, tops, spacing, scale, 4 * s + 3)
}

/// The end of the rows that belong to the header where there is ink in
/// them.
pub open spec fn header_scan_end(tops: Seq<Single>, spacing: Single) -> Single {
    tops[0].minus(lines(HEADER_PAD, spacing)).max(header_end(tops, spacing))
}

/// What reaches out of the header towards the first staff, cut off where
/// the header must end.
pub open spec fn header_boxes(img: &GrayImage, tops: Seq<Single>, spacing: Single, pad: Single)
    -> Seq<PixelBox> {
    let top = header_end(tops, spacing);
    let end = header_scan_end(tops, spacing);
    if top.plus(Single { bits: TWO }).lt(end) {
        protrusion_boxes(img, region(spacing, pad, top, end, false)).map_values(
            |b: PixelBox| PixelBox { y_bot: b.y_bot.min(end), ..b },
        )
    } else {
        Seq::empty()
    }
}

/// The shape of the header.
pub open spec fn is_header(
    shape: &StripShape,
    img: &GrayImage,
    tops: Seq<Single>,
    spacing: Single,
    scale: PageScale,
) -> bool {
    shape.is(
        Band {
            y_top: scale.height,
            y_bot: height_in_points(header_end(tops, spacing), scale),
        },
        boxes_in_points(header_boxes(img, tops, spacing, scale.pad), scale),
    )
}

/// There is ink on a page, and at least four staves whose lines lie
/// `spacing` apart.
pub open spec fn staved(img: &GrayImage, spacing: Single) -> bool {
    has_ink(img) && stave_tops(img, spacing).len() >= 4
}

/// The result for a page on which staff lines lie `spacing` apart, or on
/// which none were found. A page without systems, a blank one too, is a
/// full page.
pub open spec fn detected(
    bands: &PageBands,
    img: &GrayImage,
    spacing: Option<Single>,
    height: Single,
    dpi: u32,
    padding: Single,
) -> bool {
    match spacing {
        None => *bands is FullPage,
        Some(sp) => {
            let all = stave_tops(img, sp);
            let tops = whole_systems(all);
            let scale = PageScale {
                height,
                per_pixel: Single { bits: INCH }.over(whole(dpi as int)),
                pad: padding.times(sp),
            };
            if !staved(img, sp) {
                *bands is FullPage
            } else {
                match bands {
                    PageBands::FullPage => false,
                    PageBands::Systems { systems, header } => {
                        &&& systems@.len() == tops.len() / 4
                        &&& forall|s: int|
                            0 <= s < systems@.len() ==> is_system(
                                #[trigger] systems@[s],
                                img,
                                tops,
                                sp,
                                scale,
                                s,
                            )
                        &&& is_header(header, img, tops, sp, scale)
                    },
                }
            }
        },
    }
}

/// A page whose height is known where it is needed: where it has systems
/// with staff lines so far apart.
pub open spec fn height_known(img: &GrayImage, spacing: Option<Single>, height: Single) -> bool {
    spacing is Some && staved(img, spacing->0) ==> (Single { bits: 0 }).le(height)
}

/// A page whose height is known where it is needed: there is one, unless
/// the page cannot have systems whatever the distance between staff lines.
pub open spec fn detectable(img: &GrayImage, height: Single) -> bool {
    &&& img.wf()
    &&& img.height >= 16 && (exists|sp: Single| usable(sp) && #[trigger] staved(img, sp)) ==> (
    Single { bits: 0 }).le(height)
}

/// A distance between staff lines that can be worked with.
pub open spec fn usable(spacing: Single) -> bool {
    &&& spacing.finite()
    &&& !spacing.negative()
    &&& power(0) <= spacing.rank() <= power(7)
}

/// Sizes that follow from a usable distance: a comb and a radius that are
/// neither nothing nor too large.
pub(crate) proof fn lemma_usable(spacing: Single)
    requires
        usable(spacing),
    ensures
        1 <= spacing.nearest_whole(usize::MAX as int) <= 128,
        1 <= spacing.nearest_whole(u32::MAX as int) <= 128,
        1 <= staff_span(spacing).times(Single { bits: STAFF_REACH }).nearest_whole(
            usize::MAX as int,
        ) <= 1024,
{
    let one = one_units();
    let four = Single { bits: FOUR };
    let reach = Single { bits: STAFF_REACH };
    lemma2_to64();
    lemma_pow2_pos(149);
    lemma_round_range(spacing, 7, usize::MAX as int);
    lemma_round_range(spacing, 7, u32::MAX as int);
    lemma_power(0);
    lemma_power(1);
    lemma_power(2);
    lemma_power(7);
    lemma_power(9);
    lemma_power(10);
    lemma_pow2_adds(1, 149);
    lemma_pow2_adds(2, 149);
    lemma_pow2_adds(7, 149);
    lemma_pow2_adds(9, 149);
    lemma_pow2_adds(10, 149);
    if power(0) < spacing.mag() {
        lemma_units_mono(power(0), spacing.mag());
    }
    if spacing.mag() < power(7) {
        lemma_units_mono(spacing.mag(), power(7));
    }
    let u = units(spacing.mag());
    assert(four.mag() == power(2));
    assert((4 * one) * one <= (4 * one) * u <= (512 * one) * one) by (nonlinear_arith)
        requires
            one <= u <= 128 * one,
            one > 0,
    ;
    lemma_times_between(four, spacing, power(2), power(9));
    let span = staff_span(spacing);
    lemma_units_mono(power(0), reach.mag());
    lemma_units_mono(reach.mag(), power(1));
    if power(2) < span.mag() {
        lemma_units_mono(power(2), span.mag());
    }
    if span.mag() < power(9) {
        lemma_units_mono(span.mag(), power(9));
    }
    let us = units(span.mag());
    let ur = units(reach.mag());
    assert((4 * one) * one <= us * ur <= (1024 * one) * one) by (nonlinear_arith)
        requires
            4 * one <= us <= 512 * one,
            one <= ur <= 2 * one,
            one > 0,
    ;
    lemma_times_between(span, reach, power(2), power(10));
    lemma_round_range(span.times(reach), 10, usize::MAX as int);
}

/// The tops of staves are finite numbers.
proof fn lemma_tops_finite(found: Seq<int>, n: int)
    requires
        0 <= n <= u32::MAX,
        forall|i: int| 0 <= i < found.len() ==> 0 <= #[trigger] found[i] < n,
    ensures
        all_finite(sorted(found.map_values(|i: int| whole(i)))),
{
    let s = found.map_values(|i: int| whole(i));
    assert forall|i: int| 0 <= i < s.len() implies (#[trigger] s[i]).finite() by {
        assert(0 <= found[i] < n);
        if found[i] == 0 {
            lemma_whole_exact(0);
        } else {
            lemma_whole_range(found[i]);
        }
    }
    lemma_sorted(s);
    let t = sorted(s);
    broadcast use vstd::seq_lib::group_to_multiset_ensures;

    assert forall|i: int| 0 <= i < t.len() implies (#[trigger] t[i]).finite() by {
        assert(t.to_multiset().contains(t[i]));
        assert(s.to_multiset().contains(t[i]));
        assert(s.contains(t[i]));
    }
}

/// Finds the tops of the staves of a page.
pub fn find_staves(img: &GrayImage, signal: &Vec<Single>, spacing: Single) -> (r: Vec<Single>)
    requires
        img.wf(),
        has_ink(img),
        signal@ == levels(img),
        usable(spacing),
    ensures
        r@ == stave_tops(img, spacing),
{
    proof {
        lemma_usable(spacing);
        lemma_filter_of_inked_page(img, spacing);
        // A page at least two pixels wide has at most half as many rows as
        // there are addresses.
        assert(2 * img.height <= img.width * img.height) by (nonlinear_arith)
            requires
                img.width >= 2,
        ;
        assert(img.pixels.len() == img.pixels@.len());
    }
    let conv = comb_convolve(signal, spacing);
    let span = Single { bits: FOUR }.times(spacing);
    let radius = span.times(Single { bits: STAFF_REACH });
    let found = non_max_suppress(&conv, radius);
    proof {
        let r = radius.nearest_whole(usize::MAX as int);
        lemma_peaks_apart(conv@, r, peak_threshold(conv@), conv@.len());
        lemma_tops_finite(peaks_of(conv@, radius), img.height as int);
    }
    remove_false_staves(found, &conv)
}

/// The borders between neighbouring staves.
fn find_borders(img: &GrayImage, tops: &Vec<Single>, spacing: Single) -> (r: Vec<Single>)
    requires
        img.wf(),
        img.height > 0,
        tops@.len() > 0,
    ensures
        r@.len() == tops@.len() - 1,
        forall|k: int|
            0 <= k < r@.len() ==> #[trigger] r@[k] == border(img, tops@, spacing, k),
{
    let mut r: Vec<Single> = Vec::new();
    let span = Single { bits: FOUR }.times(spacing);
    let n: usize = tops.len();
    let mut k: usize = 0;
    while k + 1 < n
        invariant
            img.wf(),
            img.height > 0,
                n == tops@.len(),
            n > 0,
            k <= n - 1,
            span == staff_span(spacing),
            r@.len() == k,
            forall|j: int| 0 <= j < k ==> #[trigger] r@[j] == border(img, tops@, spacing, j),
        decreases n - k,
    {
        let (a, b) = find_gap_edges(img, tops[k].plus(span), tops[k + 1]);
        r.push(a.plus(b).over(Single { bits: TWO }));
        k = k + 1;
    }
    r
}

fn to_points(y: Single, scale: PageScale) -> (r: Single)
    requires
        (Single { bits: 0 }).le(scale.height),
    ensures
        r == height_in_points(y, scale),
{
    scale.height.minus(y.times(scale.per_pixel)).clamp(Single { bits: 0 }, scale.height)
}

fn boxes_to_points(s: &Vec<PixelBox>, scale: PageScale) -> (r: Vec<Protrusion>)
    requires
        (Single { bits: 0 }).le(scale.height),
    ensures
        r@ == boxes_in_points(s@, scale),
{
    let mut r: Vec<Protrusion> = Vec::new();
    let mut i: usize = 0;
    while i < s.len()
        invariant
            (Single { bits: 0 }).le(scale.height),
            i <= s@.len(),
            r@.len() == i,
            forall|j: int| 0 <= j < i ==> #[trigger] r@[j] == box_in_points(s@[j], scale),
        decreases s@.len() - i,
    {
        let b = s[i];
        r.push(
            Protrusion {
                x_left: Single::from_u32(b.x_left).times(scale.per_pixel),
                x_right: Single::from_u32(b.x_right).times(scale.per_pixel),
                y_top: to_points(b.y_top, scale),
                y_bot: to_points(b.y_bot, scale),
            },
        );
        i = i + 1;
    }
    assert(r@ =~= boxes_in_points(s@, scale));
    r
}

fn find_column_width(spacing: Single) -> (r: u32)
    ensures
        r == column_width(spacing),
{
    let w: u32 = spacing.round_to_u32();
    if w < 4 {
        4
    } else {
        w
    }
}

/// The shape of one staff's strip.
fn strip_shape(
    img: &GrayImage,
    tops: &Vec<Single>,
    borders: &Vec<Single>,
    spacing: Single,
    scale: PageScale,
    k: usize,
) -> (shape: StripShape)
    requires
        img.wf(),
        img.height > 0,
        usable(spacing),
        (Single { bits: 0 }).le(scale.height),
        k < tops@.len(),
        borders@.len() == tops@.len() - 1,
        forall|j: int|
            0 <= j < borders@.len() ==> #[trigger] borders@[j] == border(img, tops@, spacing, j),
    ensures
        is_strip(&shape, img, tops@, spacing, scale, k as int),
{
    proof {
        lemma_usable(spacing);
    }
    let n: usize = tops.len();
    let col_width: u32 = find_column_width(spacing);
    let top = tops[k];
    let bot = top.plus(Single { bits: FOUR }.times(spacing));
    let band_pad = Single { bits: BAND_PAD }.times(spacing);
    let up_limit = if k == 0 {
        top.minus(Single { bits: TOP_PAD }.times(spacing)).max(Single { bits: 0 })
    } else {
        borders[k - 1]
    };
    let down_limit = if k == n - 1 {
        bot.plus(Single { bits: THREE }.times(spacing)).min(Single::from_u32(img.height))
    } else {
        borders[k]
    };
    let tight_top = top.minus(band_pad);
    let base_top = if up_limit.lt(tight_top) {
        tight_top
    } else {
        up_limit
    };
    let tight_bot = bot.plus(band_pad);
    let base_bot = if tight_bot.lt(down_limit) {
        tight_bot
    } else {
        down_limit
    };
    let scan_up = if k == 0 {
        base_top
    } else {
        up_limit.min(base_top)
    };
    let scan_down = if k == n - 1 {
        down_limit
    } else {
        down_limit.max(base_bot)
    };
    assert(base_top == band_top(img, tops@, spacing, k as int));
    assert(base_bot == band_bot(img, tops@, spacing, k as int));
    assert(scan_up == scan_top(img, tops@, spacing, k as int));
    assert(scan_down == scan_bot(img, tops@, spacing, k as int));
    let mut boxes: Vec<PixelBox> = Vec::new();
    if scan_up.lt(base_top) {
        boxes =
        scan_protrusions_in_region(
            img,
            Region { top: scan_up, bot: base_top, col_width, pad: scale.pad, upwards: true },
        );
    }
    let ghost above = boxes@;
    if base_bot.lt(scan_down) {
        let mut below = scan_protrusions_in_region(
            img,
            Region { top: base_bot, bot: scan_down, col_width, pad: scale.pad, upwards: false },
        );
        boxes.append(&mut below);
    }
    assert(boxes@ =~= staff_boxes(img, tops@, spacing, scale.pad, k as int));
    let protrusions = boxes_to_points(&boxes, scale);
    StripShape {
        base: Band { y_top: to_points(base_top, scale), y_bot: to_points(base_bot, scale) },
        protrusions,
    }
}

/// The shapes of one system's strips.
#[verifier::spinoff_prover]
#[verifier::rlimit(50)]
fn system_shapes(
    img: &GrayImage,
    tops: &Vec<Single>,
    borders: &Vec<Single>,
    spacing: Single,
    scale: PageScale,
    s: usize,
) -> (system: [StripShape; 4])
    requires
        img.wf(),
        img.height > 0,
        usable(spacing),
        (Single { bits: 0 }).le(scale.height),
        4 * s + 3 < tops@.len(),
        tops@.len() == tops.len(),
        borders@.len() == tops@.len() - 1,
        forall|j: int|
            0 <= j < borders@.len() ==> #[trigger] borders@[j] == border(img, tops@, spacing, j),
    ensures
        is_system(system, img, tops@, spacing, scale, s as int),
{
    let violin1 = strip_shape(img, tops, borders, spacing, scale, 4 * s);
    let violin2 = strip_shape(img, tops, borders, spacing, scale, 4 * s + 1);
    let viola = strip_shape(img, tops, borders, spacing, scale, 4 * s + 2);
    let cello = strip_shape(img, tops, borders, spacing, scale, 4 * s + 3);
    [violin1, violin2, viola, cello]
}

/// The shapes of all systems' strips.
#[verifier::spinoff_prover]
fn all_systems(
    img: &GrayImage,
    tops: &Vec<Single>,
    borders: &Vec<Single>,
    spacing: Single,
    scale: PageScale,
) -> (systems: Vec<[StripShape; 4]>)
    requires
        img.wf(),
        img.height > 0,
        usable(spacing),
        (Single { bits: 0 }).le(scale.height),
        tops@.len() % 4 == 0,
        borders@.len() == tops@.len() - 1,
        forall|j: int|
            0 <= j < borders@.len() ==> #[trigger] borders@[j] == border(img, tops@, spacing, j),
    ensures
        systems@.len() == tops@.len() / 4,
        forall|t: int|
            0 <= t < systems@.len() ==> is_system(
                #[trigger] systems@[t],
                img,
                tops@,
                spacing,
                scale,
                t,
            ),
{
    let n: usize = tops.len() / STAVES;
    let mut systems: Vec<[StripShape; 4]> = Vec::new();
    let mut s: usize = 0;
    while s < n
        invariant
            img.wf(),
            img.height > 0,
            usable(spacing),
            (Single { bits: 0 }).le(scale.height),
            tops@.len() == tops.len(),
            4 * n == tops@.len(),
            s <= n,
            borders@.len() == tops@.len() - 1,
            forall|j: int|
                0 <= j < borders@.len() ==> #[trigger] borders@[j] == border(
                    img,
                    tops@,
                    spacing,
                    j,
                ),
            systems@.len() == s,
            forall|t: int|
                0 <= t < s ==> is_system(#[trigger] systems@[t], img, tops@, spacing, scale, t),
        decreases n - s,
    {
        let system = system_shapes(img, tops, borders, spacing, scale, s);
        systems.push(system);
        s = s + 1;
    }
    systems
}

/// The shape of the header.
fn header_shape(img: &GrayImage, tops: &Vec<Single>, spacing: Single, scale: PageScale) -> (shape:
    StripShape)
    requires
        img.wf(),
        img.height > 0,
        usable(spacing),
        (Single { bits: 0 }).le(scale.height),
        tops@.len() > 0,
    ensures
        is_header(&shape, img, tops@, spacing, scale),
{
    proof {
        lemma_usable(spacing);
    }
    let col_width: u32 = find_column_width(spacing);
    let first = tops[0];
    let end = first.minus(Single { bits: TOP_PAD }.times(spacing)).max(Single { bits: 0 });
    let scan_end = first.minus(Single { bits: HEADER_PAD }.times(spacing)).max(end);
    let mut boxes: Vec<PixelBox> = Vec::new();
    if end.plus(Single { bits: TWO }).lt(scan_end) {
        let found = scan_protrusions_in_region(
            img,
            Region { top: end, bot: scan_end, col_width, pad: scale.pad, upwards: false },
        );
        let mut i: usize = 0;
        while i < found.len()
            invariant
                i <= found@.len(),
                boxes@.len() == i,
                forall|j: int|
                    0 <= j < i ==> #[trigger] boxes@[j] == (PixelBox {
                        y_bot: found@[j].y_bot.min(scan_end),
                        ..found@[j]
                    }),
            decreases found@.len() - i,
        {
            let b = found[i];
            boxes.push(
                PixelBox {
                    x_left: b.x_left,
                    x_right: b.x_right,
                    y_top: b.y_top,
                    y_bot: b.y_bot.min(scan_end),
                },
            );
            i = i + 1;
        }
    }
    assert(boxes@ =~= header_boxes(img, tops@, spacing, scale.pad));
    let protrusions = boxes_to_points(&boxes, scale);
    StripShape {
        base: Band { y_top: scale.height, y_bot: to_points(end, scale) },
        protrusions,
    }
}

/// The bands of a page whose staff lines are a known distance apart; none
/// where the page's height is not known.
fn bands_for_spacing(
    img: &GrayImage,
    signal: &Vec<Single>,
    spacing: Option<Single>,
    page_height_pts: Single,
    dpi: u32,
    min_padding_factor: Single,
) -> (r: Option<PageBands>)
    requires
        img.wf(),
        signal@ == levels(img),
        spacing is Some ==> usable(spacing->0),
    ensures
        match r {
            Some(bands) => detected(
                &bands,
                img,
                spacing,
                page_height_pts,
                dpi,
                min_padding_factor,
            ),
            None => true,
        },
        r is Some <==> height_known(img, spacing, page_height_pts),
{
    let sp = match spacing {
        Some(s) => s,
        None => {
            return Some(PageBands::FullPage);
        },
    };
    if !page_has_ink(img) {
        return Some(PageBands::FullPage);
    }
    let mut tops = find_staves(img, signal, sp);
    if tops.len() < STAVES {
        return Some(PageBands::FullPage);
    }
    if !Single::le(Single { bits: 0 }, page_height_pts) {
        return None;
    }
    proof {
        lemma_usable(sp);
        lemma_filter_of_inked_page(img, sp);
    }
    let n: usize = (tops.len() / STAVES) * STAVES;
    tops.truncate(n);
    assert(tops@ =~= whole_systems(stave_tops(img, sp)));
    let scale = PageScale {
        height: page_height_pts,
        per_pixel: Single { bits: INCH }.over(Single::from_u32(dpi)),
        pad: min_padding_factor.times(sp),
    };
    let borders = find_borders(img, &tops, sp);
    let systems = all_systems(img, &tops, &borders, sp, scale);
    let header = header_shape(img, &tops, sp, scale);
    Some(PageBands::Systems { systems, header })
}

/// Detects the systems of a page in whose rows the frequencies have the
/// magnitudes `mags`.
pub fn detect_in_spectrum(
    img: &GrayImage,
    mags: &Vec<Single>,
    page_height_pts: Single,
    dpi: u32,
    min_padding_factor: Single,
) -> (bands: PageBands)
    requires
        img.wf(),
        height_known(img, spacing_of(img.height as int, mags@), page_height_pts),
        mags@.len() == img.height as nat / 2 + 1,
    ensures
        detected(
            &bands,
            img,
            spacing_of(img.height as int, mags@),
            page_height_pts,
            dpi,
            min_padding_factor,
        ),
{
    let signal = row_signal(img);
    let spacing = pick_spacing(signal.len(), mags);
    proof {
        if spacing is Some {
            lemma_spacing_range(img.height as int, mags@);
        }
    }
    match bands_for_spacing(img, &signal, spacing, page_height_pts, dpi, min_padding_factor) {
        Some(bands) => bands,
        None => PageBands::FullPage,
    }
}

/// What was found on a page is what `detect_in_spectrum` finds for a
/// spectrum of the darkness of the page's rows; or the page's height is not
/// known, and it has systems in such a spectrum.
pub open spec fn is_detection(
    found: Option<PageBands>,
    img: &GrayImage,
    height: Single,
    dpi: u32,
    padding: Single,
) -> bool {
    exists|mags: Seq<Single>| #[trigger]
        is_spectrum(levels(img), mags) && {
            let spacing = spacing_of(img.height as int, mags);
            match found {
                Some(bands) => detected(&bands, img, spacing, height, dpi, padding),
                None => !height_known(img, spacing, height),
            }
        }
}

/// Detects the systems of a page, unless it has some and its height is not
/// known.
pub fn try_detect(
    img: &GrayImage,
    page_height_pts: Single,
    page_width_pts: Single,
    dpi: u32,
    min_padding_factor: Single,
) -> (r: Option<PageBands>)
    requires
        img.wf(),
    ensures
        is_detection(r, img, page_height_pts, dpi, min_padding_factor),
        detectable(img, page_height_pts) ==> r is Some,
{
    let signal = row_signal(img);
    let spacing = staff_line_spacing(&signal);
    proof {
        let mags = choose|mags: Seq<Single>|
            #[trigger] is_spectrum(signal@, mags) && spacing == spacing_of(
                signal@.len() as int,
                mags,
            );
        if spacing is Some {
            lemma_spacing_range(img.height as int, mags);
            assert(usable(spacing->0));
        }
    }
    bands_for_spacing(img, &signal, spacing, page_height_pts, dpi, min_padding_factor)
}

/// Detects the systems of a page.
///
/// What is detected is what `detect_in_spectrum` detects for a spectrum of
/// the darkness of the page's rows.
pub fn detect(
    img: &GrayImage,
    page_height_pts: Single,
    page_width_pts: Single,
    dpi: u32,
    min_padding_factor: Single,
) -> (bands: PageBands)
    requires
        detectable(img, page_height_pts),
    ensures
        is_detection(Some(bands), img, page_height_pts, dpi, min_padding_factor),
{
    match try_detect(img, page_height_pts, page_width_pts, dpi, min_padding_factor) {
        Some(bands) => bands,
        None => PageBands::FullPage,
    }
}

/// Whether a page has ink in its sampled columns.
fn page_has_ink(img: &GrayImage) -> (r: bool)
    requires
        img.wf(),
    ensures
        r == has_ink(img),
{
    let x0: u32 = img.width / 5;
    let x1: u32 = (img.width as u64 * 4 / 5) as u32;
    let mut y: u32 = 0;
    while y < img.height
        invariant
            img.wf(),
            x0 == sample_left(img),
            x1 == sample_right(img),
            x0 <= x1 <= img.width,
            y <= img.height,
            forall|i: int, j: int| x0 <= i < x1 && 0 <= j < y ==> #[trigger] img.pixel(i, j) == 255,
        decreases img.height - y,
    {
        let mut x: u32 = x0;
        while x < x1
            invariant
                img.wf(),
                x0 == sample_left(img),
                x1 == sample_right(img),
                x0 <= x <= x1 <= img.width,
                y < img.height,
                forall|i: int| x0 <= i < x ==> #[trigger] img.pixel(i, y as int) == 255,
            decreases x1 - x,
        {
            if img.get(x, y) < 255 {
                return true;
            }
            x = x + 1;
        }
        y = y + 1;
    }
    false
}

/// The names of the parts, in the order of the staves of a system.
pub fn part_names() -> (r: [&'static str; 4])
    ensures
        r@[0]@ == "violin1"@,
        r@[1]@ == "violin2"@,
        r@[2]@ == "viola"@,
        r@[3]@ == "cello"@,
{
    ["violin1", "violin2", "viola", "cello"]
}

/// The border between two staves is a number.
pub(crate) proof fn lemma_border_is_a_number(img: &GrayImage, tops: Seq<Single>, spacing: Single, k: int)
    requires
        img.height > 0,
        all_finite(tops),
        usable(spacing),
        0 <= k < tops.len() - 1,
    ensures
        !border(img, tops, spacing, k).nan(),
{
    let span = staff_span(spacing);
    let bot = staff_bot(tops, spacing, k);
    assert(tops[k].finite() && tops[k + 1].finite());
    lemma_span(spacing);
    lemma_plus_number(tops[k], span);
    let start = row_below(img, bot);
    let end = row_above(img, tops[k + 1]);
    let ink = ink_rows(row_counts(img, start, end));
    let (a, b) = gap_edges(img, bot, tops[k + 1]);
    if start >= end || all_inked(ink) {
        lemma_plus_number(bot, tops[k + 1]);
        lemma_half_is_a_number(bot.plus(tops[k + 1]));
        let mid = midpoint(bot, tops[k + 1]);
        if mid.finite() {
            lemma_plus_number(mid, mid);
        }
        lemma_half_is_a_number(mid.plus(mid));
    } else {
        let (from, len) = widest(ink);
        lemma_widest(ink);
        lemma_whole_number(start);
        lemma_whole_number(from);
        lemma_whole_number(len);
        lemma_nonneg_plus(whole(start), whole(from));
        lemma_nonneg_plus(a, whole(len));
        lemma_nonneg_plus(a, b);
        lemma_half_is_a_number(a.plus(b));
    }
}

/// Half a number is a number.
proof fn lemma_half_is_a_number(x: Single)
    requires
        !x.nan(),
    ensures
        !x.over(Single { bits: TWO }).nan(),
{
    let two = Single { bits: TWO };
    lemma_power(1);
    lemma2_to64();
    lemma_pow2_pos(149);
    lemma_pow2_adds(1, 149);
    assert(two.mag() == power(1));
    if x.finite() {
        let n = units(x.mag()) * one_units();
        lemma_nonneg_units(x.mag());
        assert(n >= 0) by (nonlinear_arith)
            requires
                n == units(x.mag()) * one_units(),
                units(x.mag()) >= 0,
                one_units() > 0,
        ;
        lemma_nearest_rounds(n, units(two.mag()));
    }
}

proof fn lemma_nonneg_units(m: int)
    requires
        m >= 0,
    ensures
        units(m) >= 0,
{
    lemma_units_at(0, 0);
    lemma2_to64();
    if m > 0 {
        lemma_units_mono(0, m);
    }
}

/// A whole number is a number that is not negative.
proof fn lemma_whole_number(n: int)
    requires
        n >= 0,
    ensures
        !whole(n).nan(),
        !whole(n).negative(),
{
    lemma_pow2_pos(149);
    let u = n * one_units();
    assert(u >= 0) by (nonlinear_arith)
        requires
            u == n * one_units(),
            n >= 0,
            one_units() > 0,
    ;
    lemma_nearest_rounds(u, 1);
}

/// A sum of numbers that are not negative is such a number.
proof fn lemma_nonneg_plus(a: Single, b: Single)
    requires
        !a.nan(),
        !b.nan(),
        !a.negative(),
        !b.negative(),
    ensures
        !a.plus(b).nan(),
        !a.plus(b).negative(),
{
    if a.finite() && b.finite() {
        lemma_nonneg_units(a.mag());
        lemma_nonneg_units(b.mag());
        let n = a.value() + b.value();
        if n > 0 {
            lemma_nearest_rounds(n, 1);
        }
    }
}

/// The bands of neighbouring staves do not overlap: between them lies the
/// border, which is in whitespace where there is some.
pub proof fn lemma_bands_do_not_overlap(
    img: &GrayImage,
    tops: Seq<Single>,
    spacing: Single,
    k: int,
)
    requires
        img.height > 0,
        all_finite(tops),
        usable(spacing),
        0 <= k < tops.len() - 1,
    ensures
        band_bot(img, tops, spacing, k).le(border(img, tops, spacing, k)),
        border(img, tops, spacing, k).le(band_top(img, tops, spacing, k + 1)),
{
    lemma_border_is_a_number(img, tops, spacing, k);
}

/// The bands keep close to their staves: none starts more than two and a
/// half line distances above its staff, or ends more than that below.
pub proof fn lemma_bands_keep_close(img: &GrayImage, tops: Seq<Single>, spacing: Single, k: int)
    requires
        0 <= k < tops.len(),
    ensures
        !band_top(img, tops, spacing, k).lt(tops[k].minus(lines(BAND_PAD, spacing))),
        !staff_bot(tops, spacing, k).plus(lines(BAND_PAD, spacing)).lt(
            band_bot(img, tops, spacing, k),
        ),
{
}

/// The header ends above the first band.
pub proof fn lemma_header_ends_above(img: &GrayImage, tops: Seq<Single>, spacing: Single)
    requires
        tops.len() > 0,
    ensures
        header_end(tops, spacing).le(band_top(img, tops, spacing, 0)),
{
}

/// Heights in points lie on the page.
pub proof fn lemma_heights_lie_on_the_page(y: Single, scale: PageScale)
    requires
        (Single { bits: 0 }).le(scale.height),
        !height_in_points(y, scale).nan(),
    ensures
        (Single { bits: 0 }).le(height_in_points(y, scale)),
        height_in_points(y, scale).le(scale.height),
{
}

/// The staves that are found come in order down the page.
pub proof fn lemma_tops_ascend(img: &GrayImage, spacing: Single)
    requires
        img.wf(),
        has_ink(img),
        usable(spacing),
    ensures
        ascending(stave_tops(img, spacing)),
{
    let conv = combed(levels(img), spacing);
    let radius = staff_span(spacing).times(Single { bits: STAFF_REACH });
    let found = peaks_of(conv, radius);
    let list = found.map_values(|i: int| whole(i));
    lemma_usable(spacing);
    lemma_filter_of_inked_page(img, spacing);
    let r = radius.nearest_whole(usize::MAX as int);
    lemma_peaks_apart(conv, r, peak_threshold(conv), conv.len());
    assert forall|i: int| 0 <= i < list.len() implies !(#[trigger] list[i]).nan() by {
        assert(0 <= found[i]);
        lemma_whole_number(found[i]);
    }
    lemma_sorted(list);
    let kept = lemma_pruned_is_a_selection(sorted(list), conv);
    let tops = stave_tops(img, spacing);
    assert forall|i: int, j: int| 0 <= i <= j < tops.len() implies (#[trigger] tops[i]).rank()
        <= (#[trigger] tops[j]).rank() by {
        assert(tops[i] == sorted(list)[kept[i]]);
        assert(tops[j] == sorted(list)[kept[j]]);
    }
}

} // verus!
