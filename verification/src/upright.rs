//! No shape on a page stands on its head: the bottom of a band or of a
//! rectangle is never above its top.
use crate::bounds::{
    lemma_minus_shrinks, lemma_plus_nonneg, lemma_whole_exact, lemma_whole_mono, lemma_whole_range,
    nonneg,
};
use crate::image::GrayImage;
use crate::monotone::lemma_units_nonneg;
use crate::protrusions::{
    boxes, column_edge, columns, farthest, group_box, group_end, lemma_reach_stops_at_whitespace,
    max_gap, protrusion_boxes, reach, scan_ink, scan_row, ColInk, PixelBox, Region,
};
use crate::rounding::{lemma_nearest_ge, lemma_nearest_le, units};
use crate::single::{one_units, whole, Single};
use crate::whitespace::{ink_left, ink_right, row_above, row_below};
use vstd::arithmetic::div_mod::*;
use vstd::arithmetic::power2::*;
use vstd::prelude::*;

verus! {

/// Rectangles whose tops are not below their bottoms, counted in rows.
pub open spec fn all_upright(s: Seq<PixelBox>) -> bool {
    forall|k: int| 0 <= k < s.len() ==> (#[trigger] s[k]).y_top.le(s[k].y_bot)
}

/// The number of a row is finite and not below zero.
pub(crate) proof fn lemma_row_number(n: int)
    requires
        0 <= n <= u32::MAX,
    ensures
        whole(n).finite(),
        nonneg(whole(n)),
        !whole(n).negative(),
{
    if n == 0 {
        lemma_whole_exact(0);
    } else {
        lemma_whole_range(n);
    }
}

/// The row at or below a height is not above it.
pub(crate) proof fn lemma_row_below(img: &GrayImage, y: Single)
    requires
        !y.nan(),
        row_below(img, y) < img.height - 1,
    ensures
        0 <= row_below(img, y),
        y.le(whole(row_below(img, y))),
{
    let one = one_units();
    let u = units(y.mag());
    lemma_pow2_pos(149);
    lemma_units_nonneg(y.mag());
    let r = row_below(img, y);
    if !y.negative() {
        let q = (u + one - 1) / one;
        lemma_fundamental_div_mod(u + one - 1, one);
        lemma_mod_bound(u + one - 1, one);
        assert(q >= 0) by (nonlinear_arith)
            requires
                u + one - 1 == one * q + (u + one - 1) % one,
                0 <= (u + one - 1) % one < one,
                u + one - 1 >= 0,
                one > 0,
        ;
        assert(q == r);
        assert(u <= q * one) by (nonlinear_arith)
            requires
                u + one - 1 == one * q + (u + one - 1) % one,
                (u + one - 1) % one < one,
        ;
        assert(u * 1 <= q * one);
        lemma_nearest_ge(y.mag(), q * one, 1);
    }
    lemma_row_number(r);
}

/// A row above the row at or above a height is not below that height.
pub(crate) proof fn lemma_row_above(img: &GrayImage, y: Single, n: int)
    requires
        img.height > 0,
        !y.nan(),
        0 <= n <= row_above(img, y),
        n > 0 || !y.negative(),
    ensures
        whole(n).le(y),
        !y.negative(),
{
    let one = one_units();
    let u = units(y.mag());
    lemma_pow2_pos(149);
    lemma_units_nonneg(y.mag());
    lemma_row_number(n);
    let q = u / one;
    lemma_fundamental_div_mod(u, one);
    lemma_mod_bound(u, one);
    assert(q >= 0) by (nonlinear_arith)
        requires
            u == one * q + u % one,
            0 <= u % one < one,
            u >= 0,
            one > 0,
    ;
    if y.finite() {
        assert(!y.negative());
        assert(n <= q);
        assert(0 <= n * one <= u) by (nonlinear_arith)
            requires
                u == one * q + u % one,
                0 <= u % one,
                0 <= n <= q,
                one > 0,
        ;
        assert(u * 1 == u);
        lemma_nearest_le(y.mag(), n * one, 1);
    }
}

/// The ink of columns lies in the rows that are looked through.
proof fn lemma_columns_inside(
    img: &GrayImage,
    x: int,
    x_end: int,
    r_top: int,
    r_bot: int,
    region: Region,
)
    requires
        0 <= r_top < r_bot <= u32::MAX,
    ensures
        forall|k: int|
            0 <= k < columns(img, x, x_end, r_top, r_bot, region).len() ==> r_top <= (
            #[trigger] columns(img, x, x_end, r_top, r_bot, region)[k]).ink_edge < r_bot,
    decreases x_end - x,
{
    if x < x_end && region.col_width > 0 {
        let right = if x + region.col_width < x_end {
            x + region.col_width
        } else {
            x_end
        };
        lemma_columns_inside(img, right, x_end, r_top, r_bot, region);
        let ink = scan_ink(img, x, right, r_top, r_bot, region.upwards);
        let gap = max_gap(region.pad);
        lemma_reach_stops_at_whitespace(ink, gap);
        let all = columns(img, x, x_end, r_top, r_bot, region);
        let rest = columns(img, right, x_end, r_top, r_bot, region);
        assert forall|k: int| 0 <= k < all.len() implies r_top <= (#[trigger] all[k]).ink_edge
            < r_bot by {
            match reach(ink, gap) {
                Some(i) => {
                    if k > 0 {
                        assert(all[k] == rest[k - 1]);
                    } else {
                        let y = scan_row(r_top, r_bot, region.upwards, i);
                        assert(column_edge(img, x, right, r_top, r_bot, region.upwards, gap)
                            == Some(y));
                        assert(all[0].ink_edge == y as u32);
                    }
                },
                None => {
                    assert(all[k] == rest[k]);
                },
            }
        }
    }
}

proof fn lemma_farthest_inside(
    cols: Seq<ColInk>,
    i: int,
    e: int,
    upwards: bool,
    r_top: int,
    r_bot: int,
)
    requires
        0 <= i <= e < cols.len(),
        forall|k: int| 0 <= k < cols.len() ==> r_top <= (#[trigger] cols[k]).ink_edge < r_bot,
    ensures
        r_top <= farthest(cols, i, e, upwards) < r_bot,
    decreases e - i,
{
    assert(r_top <= cols[e].ink_edge < r_bot);
    if i < e {
        lemma_farthest_inside(cols, i, e - 1, upwards, r_top, r_bot);
    }
}

pub(crate) proof fn lemma_group_end_inside(cols: Seq<ColInk>, i: int, col_width: int)
    requires
        0 <= i < cols.len(),
    ensures
        i <= group_end(cols, i, col_width) < cols.len(),
    decreases cols.len() - i,
{
    if i + 1 < cols.len() && cols[i + 1].x_left - cols[i].x_right <= col_width {
        lemma_group_end_inside(cols, i + 1, col_width);
    }
}

/// One rectangle is upright.
proof fn lemma_group_box_upright(
    img: &GrayImage,
    cols: Seq<ColInk>,
    i: int,
    e: int,
    region: Region,
)
    requires
        img.height > 0,
        !region.top.nan(),
        !region.bot.nan(),
        !region.pad.lt(Single { bits: 0 }),
        0 <= row_below(img, region.top) < row_above(img, region.bot),
        0 <= i <= e < cols.len(),
        forall|k: int|
            0 <= k < cols.len() ==> row_below(img, region.top) <= (#[trigger] cols[k]).ink_edge
                < row_above(img, region.bot),
    ensures
        group_box(img, cols, i, e, region).y_top.le(group_box(img, cols, i, e, region).y_bot),
{
    let r_top = row_below(img, region.top);
    let r_bot = row_above(img, region.bot);
    lemma_farthest_inside(cols, i, e, region.upwards, r_top, r_bot);
    let n = farthest(cols, i, e, region.upwards);
    let ink = whole(n);
    lemma_row_number(n);
    lemma_row_number(img.height as int);
    if region.upwards {
        lemma_row_above(img, region.bot, r_bot);
        lemma_row_above(img, region.bot, n);
        if !region.pad.nan() {
            lemma_minus_shrinks(ink, region.pad);
        }
    } else {
        lemma_row_below(img, region.top);
        lemma_whole_mono(r_top, n);
        lemma_whole_mono(n, img.height as int);
        if !region.pad.nan() {
            lemma_plus_nonneg(ink, region.pad);
        }
    }
}

/// The rectangles of groups from column `i` on are upright.
proof fn lemma_groups_upright(img: &GrayImage, cols: Seq<ColInk>, i: int, region: Region)
    requires
        img.height > 0,
        !region.top.nan(),
        !region.bot.nan(),
        !region.pad.lt(Single { bits: 0 }),
        0 <= row_below(img, region.top) < row_above(img, region.bot),
        0 <= i,
        forall|k: int|
            0 <= k < cols.len() ==> row_below(img, region.top) <= (#[trigger] cols[k]).ink_edge
                < row_above(img, region.bot),
    ensures
        all_upright(boxes(img, cols, i, region)),
    decreases cols.len() - i,
{
    if i < cols.len() {
        lemma_group_end_inside(cols, i, region.col_width as int);
        let e = group_end(cols, i, region.col_width as int);
        lemma_group_box_upright(img, cols, i, e, region);
        lemma_groups_upright(img, cols, e + 1, region);
        let all = boxes(img, cols, i, region);
        let rest = boxes(img, cols, e + 1, region);
        assert forall|k: int| 0 <= k < all.len() implies (#[trigger] all[k]).y_top.le(
            all[k].y_bot,
        ) by {
            if k > 0 {
                assert(all[k] == rest[k - 1]);
            }
        }
    }
}

/// Rectangles below a band start at its edge, from column `i` on.
proof fn lemma_groups_start_at_edge(img: &GrayImage, cols: Seq<ColInk>, i: int, region: Region)
    requires
        !region.upwards,
        0 <= i,
    ensures
        forall|k: int|
            0 <= k < boxes(img, cols, i, region).len() ==> (#[trigger] boxes(
                img,
                cols,
                i,
                region,
            )[k]).y_top == region.top,
    decreases cols.len() - i,
{
    if i < cols.len() {
        lemma_group_end_inside(cols, i, region.col_width as int);
        let e = group_end(cols, i, region.col_width as int);
        lemma_groups_start_at_edge(img, cols, e + 1, region);
        let all = boxes(img, cols, i, region);
        let rest = boxes(img, cols, e + 1, region);
        assert forall|k: int| 0 <= k < all.len() implies (#[trigger] all[k]).y_top
            == region.top by {
            if k > 0 {
                assert(all[k] == rest[k - 1]);
            }
        }
    }
}

/// A rectangle below a band starts at its edge.
pub(crate) proof fn lemma_box_starts_at_edge(img: &GrayImage, region: Region, k: int)
    requires
        !region.upwards,
        0 <= k < protrusion_boxes(img, region).len(),
    ensures
        protrusion_boxes(img, region)[k].y_top == region.top,
{
    let r_top = row_below(img, region.top);
    let r_bot = row_above(img, region.bot);
    let cols = columns(img, ink_left(img), ink_right(img), r_top, r_bot, region);
    lemma_groups_start_at_edge(img, cols, 0, region);
}

/// The rectangles of ink beyond a band are upright, where the padding is
/// not below zero.
pub proof fn lemma_boxes_are_upright(img: &GrayImage, region: Region)
    requires
        img.height > 0,
        !region.top.nan(),
        !region.bot.nan(),
        !region.pad.lt(Single { bits: 0 }),
    ensures
        all_upright(protrusion_boxes(img, region)),
{
    let r_top = row_below(img, region.top);
    let r_bot = row_above(img, region.bot);
    if r_top < r_bot {
        lemma_row_below(img, region.top);
        let cols = columns(img, ink_left(img), ink_right(img), r_top, r_bot, region);
        lemma_columns_inside(img, ink_left(img), ink_right(img), r_top, r_bot, region);
        lemma_groups_upright(img, cols, 0, region);
    }
}

} // verus!
