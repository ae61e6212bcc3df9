//! What the rectangles beyond a band cover: the ink that belongs to the
//! band, with its padding, and no ink of a neighbour.
use crate::bounds::{lemma_power, lemma_whole_exact, lemma_whole_mono, power};
use crate::image::GrayImage;
use crate::monotone::{lemma_plus_mono, lemma_truncated_mono, lemma_units_nonneg};
use crate::placing::lemma_row_of_whole;
use crate::protrusions::{
    boxes, column_edge, columns, connected, farthest, group_box, group_end,
    lemma_reach_stops_at_whitespace, max_gap, protrusion_boxes, reach, scan_ink, scan_row, ColInk,
    Region, GAP_SHARE, LEAST_GAP,
};
use crate::rounding::{
    lemma_nearest_ge, lemma_nearest_le, lemma_nearest_rounds, lemma_units_at, lemma_units_mono,
    units,
};
use crate::single::{one_units, whole, Single};
use crate::upright::{lemma_group_end_inside, lemma_row_below, lemma_row_number};
use crate::whitespace::{dark_count, ink_left, ink_right, row_above, row_below};
use vstd::arithmetic::div_mod::*;
use vstd::arithmetic::power2::*;
use vstd::prelude::*;

verus! {

/// A row has ink between two columns: at least two pixels there are darker
/// than the grey value 200.
pub open spec fn inked_between(img: &GrayImage, x0: int, x1: int, y: int) -> bool {
    exists|a: int, b: int|
        x0 <= a < b < x1 && #[trigger] img.pixel(a, y) < 200 && #[trigger] img.pixel(b, y) < 200
}

/// The left edge of a column: columns of a width follow each other from a
/// twentieth of the page on.
pub open spec fn column_left(img: &GrayImage, width: int, j: int) -> int {
    img.width as int / 20 + j * width
}

/// The right edge of a column: the last one ends a twentieth before the
/// page does.
pub open spec fn column_right(img: &GrayImage, width: int, j: int) -> int {
    let right = column_left(img, width, j) + width;
    let end = img.width - img.width as int / 20;
    if right < end {
        right
    } else {
        end
    }
}

/// A column lies on the page.
pub open spec fn is_column(img: &GrayImage, width: int, j: int) -> bool {
    &&& j >= 0
    &&& column_left(img, width, j) < img.width - img.width as int / 20
}

/// A row lies in a region: it starts and ends between its edges, and is not
/// the last of the page.
pub open spec fn in_region(img: &GrayImage, region: Region, y: int) -> bool {
    &&& 0 <= y < img.height - 1
    &&& region.top.value() <= y * one_units()
    &&& (y + 1) * one_units() <= region.bot.value()
}

/// The ink of a column is connected with the band as far as row `y`: going
/// from the band to that row, no more than `gap` rows without ink follow
/// each other once ink was met.
pub open spec fn joined(
    img: &GrayImage,
    region: Region,
    x0: int,
    x1: int,
    y: int,
    gap: int,
) -> bool {
    forall|a: int, b: int|
        #![trigger inked_between(img, x0, x1, a), inked_between(img, x0, x1, b)]
        in_region(img, region, a) && in_region(img, region, b) && (if region.upwards {
            y <= b < a
        } else {
            a < b <= y
        }) && inked_between(img, x0, x1, a) && inked_between(img, x0, x1, b) && (forall|c: int|
            (a < c < b || b < c < a) ==> !#[trigger] inked_between(img, x0, x1, c)) ==> (b - a <= gap
            + 1 && a - b <= gap + 1)
}

proof fn lemma_dark_none(img: &GrayImage, y: int, x0: int, x1: int)
    ensures
        dark_count(img, y, x0, x1) == 0 <==> forall|x: int|
            x0 <= x < x1 ==> #[trigger] img.pixel(x, y) >= 200,
    decreases x1 - x0,
{
    if x0 < x1 {
        lemma_dark_none(img, y, x0, x1 - 1);
    }
}

/// At least two dark pixels are two dark pixels.
proof fn lemma_two_dark(img: &GrayImage, y: int, x0: int, x1: int)
    ensures
        dark_count(img, y, x0, x1) >= 2 <==> inked_between(img, x0, x1, y),
    decreases x1 - x0,
{
    if x0 < x1 {
        lemma_two_dark(img, y, x0, x1 - 1);
        lemma_dark_none(img, y, x0, x1 - 1);
        if dark_count(img, y, x0, x1) >= 2 && dark_count(img, y, x0, x1 - 1) < 2 {
            let a = choose|x: int| x0 <= x < x1 - 1 && #[trigger] img.pixel(x, y) < 200;
            assert(img.pixel(a, y) < 200 && img.pixel(x1 - 1, y) < 200);
        }
        if inked_between(img, x0, x1, y) {
            let (a, b) = choose|a: int, b: int|
                x0 <= a < b < x1 && #[trigger] img.pixel(a, y) < 200 && #[trigger] img.pixel(b, y)
                    < 200;
            if b < x1 - 1 {
                assert(inked_between(img, x0, x1 - 1, y));
            } else {
                assert(img.pixel(a, y) < 200);
            }
        }
    }
}

/// The rows of a region are those that are looked through.
proof fn lemma_region_rows(img: &GrayImage, region: Region, y: int)
    requires
        img.height > 0,
        region.top.finite(),
        region.bot.finite(),
        in_region(img, region, y),
    ensures
        0 <= row_below(img, region.top) <= y < row_above(img, region.bot),
{
    let one = one_units();
    lemma_pow2_pos(149);
    lemma_units_nonneg(region.top.mag());
    lemma_units_nonneg(region.bot.mag());
    let t = units(region.top.mag());
    let b = units(region.bot.mag());
    if !region.top.negative() {
        let n = t + one - 1;
        let q = n / one;
        lemma_fundamental_div_mod(n, one);
        lemma_mod_bound(n, one);
        assert(0 <= q <= y) by (nonlinear_arith)
            requires
                n == one * q + n % one,
                0 <= n % one < one,
                n == t + one - 1,
                0 <= t <= y * one,
                one > 0,
        ;
    }
    assert(!region.bot.negative()) by {
        assert((y + 1) * one > 0) by (nonlinear_arith)
            requires
                y >= 0,
                one > 0,
        ;
    }
    let q = b / one;
    lemma_fundamental_div_mod(b, one);
    lemma_mod_bound(b, one);
    assert(q >= y + 1) by (nonlinear_arith)
        requires
            b == one * q + b % one,
            b % one < one,
            (y + 1) * one <= b,
            one > 0,
    ;
}

/// The rows that are looked through are those of the region.
proof fn lemma_rows_of_region(img: &GrayImage, region: Region, y: int)
    requires
        img.height > 0,
        region.top.finite(),
        region.bot.finite(),
        row_below(img, region.top) <= y < row_above(img, region.bot),
    ensures
        in_region(img, region, y),
{
    let one = one_units();
    lemma_pow2_pos(149);
    lemma_units_nonneg(region.top.mag());
    lemma_units_nonneg(region.bot.mag());
    let t = units(region.top.mag());
    let b = units(region.bot.mag());
    let qb = b / one;
    lemma_fundamental_div_mod(b, one);
    lemma_mod_bound(b, one);
    let n = t + one - 1;
    let q = n / one;
    lemma_fundamental_div_mod(n, one);
    lemma_mod_bound(n, one);
    assert(q >= 0 && qb >= 0) by (nonlinear_arith)
        requires
            n == one * q + n % one,
            0 <= n % one < one,
            n >= 0,
            b == one * qb + b % one,
            0 <= b % one < one,
            b >= 0,
            one > 0,
    ;
    assert(y >= 0);
    assert(y * one >= 0) by (nonlinear_arith)
        requires
            y >= 0,
            one > 0,
    ;
    if !region.top.negative() {
        assert(q <= y);
        assert(t <= y * one) by (nonlinear_arith)
            requires
                n == one * q + n % one,
                n % one < one,
                n == t + one - 1,
                q <= y,
                one > 0,
        ;
    }
    assert(!region.bot.negative());
    assert(y + 1 <= qb);
    assert((y + 1) * one <= b) by (nonlinear_arith)
        requires
            b == one * qb + b % one,
            0 <= b % one,
            y + 1 <= qb,
            one > 0,
    ;
}

/// Whitespace that is jumped with this padding: four rows, and three
/// quarters of the padding.
proof fn lemma_gap_at_least(pad: Single, gap: int)
    requires
        pad.finite(),
        0 <= gap <= 0x100_0000,
        gap <= 4 || 4 * (gap * one_units()) <= 3 * pad.value(),
    ensures
        gap <= max_gap(pad),
{
    let one = one_units();
    let share = Single { bits: GAP_SHARE };
    let least = Single { bits: LEAST_GAP };
    let x = pad.times(share);
    lemma_pow2_pos(149);
    lemma2_to64();
    lemma_power(2);
    lemma_pow2_adds(2, 149);
    assert(least.mag() == power(2));
    lemma_whole_exact(4);
    lemma_whole_exact(gap);
    let u = units(pad.mag());
    lemma_units_nonneg(pad.mag());
    // Three quarters.
    let e = pow2(125) as int;
    lemma_pow2_pos(125);
    lemma_units_at(125, 0xc0_0000);
    assert(125 * 0x80_0000 + 0xc0_0000 == 0x3f40_0000);
    lemma_pow2_adds(125, 24);
    assert(one == e * 0x100_0000);
    let us = units(share.mag());
    assert(us == 0xc0_0000 * e);
    assert(4 * us == 3 * one);
    let n = u * us;
    assert(n >= 0) by (nonlinear_arith)
        requires
            n == u * us,
            u >= 0,
            us >= 0,
    ;
    lemma_nearest_rounds(n, one);
    let y = x.max(least);
    assert(!y.nan());
    assert(least.le(y));
    // Four rows.
    let four = whole(4);
    if four.mag() < least.mag() {
        lemma_units_mono(four.mag(), least.mag());
    }
    if least.mag() < four.mag() {
        lemma_units_mono(least.mag(), four.mag());
    }
    assert(four == least);
    lemma_truncated_whole(4);
    lemma_truncated_mono(least, y, 0, u32::MAX as int);
    if gap > 4 {
        assert(!pad.negative()) by {
            assert(gap * one > 0) by (nonlinear_arith)
                requires
                    gap > 0,
                    one > 0,
            ;
        }
        assert((gap * one) * one <= n) by (nonlinear_arith)
            requires
                n == u * us,
                4 * us == 3 * one,
                4 * (gap * one) <= 3 * u,
                one > 0,
        ;
        lemma_nearest_ge(whole(gap).mag(), n, one);
        assert(whole(gap).le(x));
        assert(whole(gap).le(y));
        lemma_truncated_whole(gap);
        lemma_truncated_mono(whole(gap), y, 0, u32::MAX as int);
    }
}

/// And no more than that.
proof fn lemma_gap_at_most(pad: Single, gap: int)
    requires
        pad.finite(),
        4 <= gap <= 0x100_0000,
        3 * pad.value() <= 4 * (gap * one_units()),
    ensures
        max_gap(pad) <= gap,
{
    let one = one_units();
    let share = Single { bits: GAP_SHARE };
    let least = Single { bits: LEAST_GAP };
    let x = pad.times(share);
    lemma_pow2_pos(149);
    lemma2_to64();
    lemma_power(2);
    lemma_pow2_adds(2, 149);
    assert(least.mag() == power(2));
    lemma_whole_exact(4);
    lemma_whole_exact(gap);
    lemma_whole_mono(4, gap);
    let u = units(pad.mag());
    lemma_units_nonneg(pad.mag());
    let e = pow2(125) as int;
    lemma_pow2_pos(125);
    lemma_units_at(125, 0xc0_0000);
    assert(125 * 0x80_0000 + 0xc0_0000 == 0x3f40_0000);
    lemma_pow2_adds(125, 24);
    let us = units(share.mag());
    assert(4 * us == 3 * one);
    let n = u * us;
    assert(n >= 0) by (nonlinear_arith)
        requires
            n == u * us,
            u >= 0,
            us >= 0,
    ;
    lemma_nearest_rounds(n, one);
    let y = x.max(least);
    let four = whole(4);
    if four.mag() < least.mag() {
        lemma_units_mono(four.mag(), least.mag());
    }
    if least.mag() < four.mag() {
        lemma_units_mono(least.mag(), four.mag());
    }
    assert(four == least);
    if !pad.negative() {
        assert(n <= (gap * one) * one) by (nonlinear_arith)
            requires
                n == u * us,
                4 * us == 3 * one,
                3 * u <= 4 * (gap * one),
                one > 0,
        ;
        lemma_nearest_le(whole(gap).mag(), n, one);
        assert(x.le(whole(gap)));
    } else {
        assert(x.rank() <= 0);
    }
    assert(y.le(whole(gap)));
    lemma_truncated_whole(gap);
    lemma_truncated_mono(y, whole(gap), 0, u32::MAX as int);
}

proof fn lemma_truncated_whole(n: int)
    requires
        0 <= n <= 0x100_0000,
    ensures
        whole(n).truncated(0, u32::MAX as int) == n,
{
    lemma_row_of_whole(n);
}

/// Which rows of a column are inked.
proof fn lemma_scan(
    img: &GrayImage,
    x0: int,
    x1: int,
    r_top: int,
    r_bot: int,
    upwards: bool,
    i: int,
)
    requires
        0 <= i < r_bot - r_top,
    ensures
        scan_ink(img, x0, x1, r_top, r_bot, upwards)[i] == inked_between(
            img,
            x0,
            x1,
            scan_row(r_top, r_bot, upwards, i),
        ),
{
    lemma_two_dark(img, scan_row(r_top, r_bot, upwards, i), x0, x1);
}

/// Ink that is connected is reached.
proof fn lemma_reach_connected(ink: Seq<bool>, gap: int, j: int)
    requires
        gap >= 0,
        0 <= j < ink.len(),
        ink[j],
        connected(ink, gap, j),
    ensures
        reach(ink, gap) is Some,
        reach(ink, gap)->0 >= j,
{
    lemma_reach_stops_at_whitespace(ink, gap);
    let r = reach(ink, gap)->0;
    if r < j {
        let b = lemma_next_ink(ink, r + 1, j);
        assert(ink[r] && ink[b]);
        assert(b - r <= gap + 1);
        assert(!ink[b]);
    }
}

/// The first inked step between two.
proof fn lemma_next_ink(ink: Seq<bool>, i: int, j: int) -> (b: int)
    requires
        0 <= i <= j < ink.len(),
        ink[j],
    ensures
        i <= b <= j,
        ink[b],
        forall|c: int| i <= c < b ==> !#[trigger] ink[c],
    decreases j - i,
{
    if ink[i] {
        i
    } else {
        lemma_next_ink(ink, i + 1, j)
    }
}

/// How far the ink of a column is followed: at least to any row that is
/// connected with the band.
#[verifier::rlimit(40)]
proof fn lemma_edge_reaches(
    img: &GrayImage,
    region: Region,
    x0: int,
    x1: int,
    y: int,
    gap: int,
) -> (edge: int)
    requires
        img.height > 0,
        region.top.finite(),
        region.bot.finite(),
        region.pad.finite(),
        in_region(img, region, y),
        inked_between(img, x0, x1, y),
        joined(img, region, x0, x1, y, gap),
        0 <= gap <= max_gap(region.pad),
    ensures
        column_edge(
            img,
            x0,
            x1,
            row_below(img, region.top),
            row_above(img, region.bot),
            region.upwards,
            max_gap(region.pad),
        ) == Some(edge),
        row_below(img, region.top) <= edge < row_above(img, region.bot),
        region.upwards ==> edge <= y,
        !region.upwards ==> y <= edge,
{
    let r_top = row_below(img, region.top);
    let r_bot = row_above(img, region.bot);
    let up = region.upwards;
    let ink = scan_ink(img, x0, x1, r_top, r_bot, up);
    let big = max_gap(region.pad);
    lemma_region_rows(img, region, y);
    let j = if up {
        r_bot - 1 - y
    } else {
        y - r_top
    };
    assert(scan_row(r_top, r_bot, up, j) == y);
    lemma_scan(img, x0, x1, r_top, r_bot, up, j);
    assert forall|a: int, b: int|
        0 <= a < b <= j && #[trigger] ink[a] && #[trigger] ink[b] && (forall|c: int|
            a < c < b ==> !#[trigger] ink[c]) implies b - a <= big + 1 by {
        let ra = scan_row(r_top, r_bot, up, a);
        let rb = scan_row(r_top, r_bot, up, b);
        lemma_scan(img, x0, x1, r_top, r_bot, up, a);
        lemma_scan(img, x0, x1, r_top, r_bot, up, b);
        lemma_rows_of_region(img, region, ra);
        lemma_rows_of_region(img, region, rb);
        assert(inked_between(img, x0, x1, ra) && inked_between(img, x0, x1, rb));
        assert forall|c: int| (ra < c < rb || rb < c < ra) implies !#[trigger] inked_between(
            img,
            x0,
            x1,
            c,
        ) by {
            let k = if up {
                r_bot - 1 - c
            } else {
                c - r_top
            };
            lemma_scan(img, x0, x1, r_top, r_bot, up, k);
            assert(!ink[k]);
        }
    }
    assert(connected(ink, big, j));
    lemma_reach_connected(ink, big, j);
    lemma_reach_stops_at_whitespace(ink, big);
    scan_row(r_top, r_bot, up, reach(ink, big)->0)
}

/// Every column with ink is listed.
proof fn lemma_column_listed(
    img: &GrayImage,
    start: int,
    end: int,
    r_top: int,
    r_bot: int,
    region: Region,
    j: int,
    edge: int,
) -> (i: int)
    requires
        region.col_width > 0,
        0 <= start,
        end <= u32::MAX,
        j >= 0,
        start + j * region.col_width < end,
        0 <= edge <= u32::MAX,
        ({
            let x0 = start + j * region.col_width;
            let x1 = if x0 + region.col_width < end {
                x0 + region.col_width
            } else {
                end
            };
            column_edge(img, x0, x1, r_top, r_bot, region.upwards, max_gap(region.pad)) == Some(
                edge,
            )
        }),
    ensures
        ({
            let cols = columns(img, start, end, r_top, r_bot, region);
            let x0 = start + j * region.col_width;
            let x1 = if x0 + region.col_width < end {
                x0 + region.col_width
            } else {
                end
            };
            &&& 0 <= i < cols.len()
            &&& cols[i].x_left == x0
            &&& cols[i].x_right == x1
            &&& cols[i].ink_edge == edge
        }),
    decreases j,
{
    let w = region.col_width as int;
    let right = if start + w < end {
        start + w
    } else {
        end
    };
    assert(j * w >= 0) by (nonlinear_arith)
        requires
            j >= 0,
            w > 0,
    ;
    let all = columns(img, start, end, r_top, r_bot, region);
    let rest = columns(img, right, end, r_top, r_bot, region);
    let here = column_edge(img, start, right, r_top, r_bot, region.upwards, max_gap(region.pad));
    if j == 0 {
        assert(0 * w == 0);
        0
    } else {
        assert((j - 1) * w + w == j * w) by (nonlinear_arith);
        assert((j - 1) * w >= 0) by (nonlinear_arith)
            requires
                j >= 1,
                w > 0,
        ;
        assert(right == start + w);
        let i = lemma_column_listed(img, right, end, r_top, r_bot, region, j - 1, edge);
        if here is Some {
            assert(all[i + 1] == rest[i]);
            i + 1
        } else {
            assert(all[i] == rest[i]);
            i
        }
    }
}

/// What is listed is a column with ink.
proof fn lemma_listed_column(
    img: &GrayImage,
    start: int,
    end: int,
    r_top: int,
    r_bot: int,
    region: Region,
    i: int,
) -> (j: int)
    requires
        region.col_width > 0,
        0 <= start,
        end <= u32::MAX,
        0 <= r_top < r_bot <= u32::MAX,
        0 <= i < columns(img, start, end, r_top, r_bot, region).len(),
    ensures
        j >= 0,
        start + j * region.col_width < end,
        ({
            let c = columns(img, start, end, r_top, r_bot, region)[i];
            let x0 = start + j * region.col_width;
            let x1 = if x0 + region.col_width < end {
                x0 + region.col_width
            } else {
                end
            };
            &&& c.x_left == x0
            &&& c.x_right == x1
            &&& column_edge(
                img,
                x0,
                x1,
                r_top,
                r_bot,
                region.upwards,
                max_gap(region.pad),
            ) == Some(c.ink_edge as int)
        }),
    decreases end - start,
{
    let w = region.col_width as int;
    let right = if start + w < end {
        start + w
    } else {
        end
    };
    let all = columns(img, start, end, r_top, r_bot, region);
    let rest = columns(img, right, end, r_top, r_bot, region);
    let here = column_edge(img, start, right, r_top, r_bot, region.upwards, max_gap(region.pad));
    if here is Some && i == 0 {
        assert(0 * w == 0);
        let ink = scan_ink(img, start, right, r_top, r_bot, region.upwards);
        lemma_reach_stops_at_whitespace(ink, max_gap(region.pad));
        0
    } else {
        let k = if here is Some {
            i - 1
        } else {
            i
        };
        assert(all[i] == rest[k]);
        let j = lemma_listed_column(img, right, end, r_top, r_bot, region, k);
        assert((j + 1) * w == j * w + w) by (nonlinear_arith);
        assert(j * w >= 0) by (nonlinear_arith)
            requires
                j >= 0,
                w > 0,
        ;
        assert(right == start + w);
        j + 1
    }
}

/// Columns come from left to right.
proof fn lemma_columns_in_order(
    img: &GrayImage,
    start: int,
    end: int,
    r_top: int,
    r_bot: int,
    region: Region,
)
    requires
        region.col_width > 0,
        0 <= start,
        end <= u32::MAX,
    ensures
        ({
            let cols = columns(img, start, end, r_top, r_bot, region);
            &&& forall|i: int|
                0 <= i < cols.len() ==> start <= (#[trigger] cols[i]).x_left < cols[i].x_right
                    <= end
            &&& forall|i: int, j: int|
                0 <= i < j < cols.len() ==> (#[trigger] cols[i]).x_right <= (
                #[trigger] cols[j]).x_left
        }),
    decreases end - start,
{
    let w = region.col_width as int;
    let right = if start + w < end {
        start + w
    } else {
        end
    };
    if start < end {
        lemma_columns_in_order(img, right, end, r_top, r_bot, region);
        let cols = columns(img, start, end, r_top, r_bot, region);
        let rest = columns(img, right, end, r_top, r_bot, region);
        let here = column_edge(
            img,
            start,
            right,
            r_top,
            r_bot,
            region.upwards,
            max_gap(region.pad),
        );
        if here is Some {
            assert forall|i: int| 0 < i < cols.len() implies #[trigger] cols[i] == rest[i - 1] by {}
            assert forall|i: int| 0 <= i < cols.len() implies start <= (#[trigger] cols[i]).x_left
                < cols[i].x_right <= end by {
                if i > 0 {
                    assert(rest[i - 1] == cols[i]);
                }
            }
            assert forall|i: int, j: int| 0 <= i < j < cols.len() implies (
            #[trigger] cols[i]).x_right <= (#[trigger] cols[j]).x_left by {
                assert(cols[j] == rest[j - 1]);
                if i > 0 {
                    assert(cols[i] == rest[i - 1]);
                }
            }
        } else {
            assert(cols =~= rest);
        }
    }
}

/// The columns of a group reach no farther than its farthest one.
proof fn lemma_farthest_of_all(cols: Seq<ColInk>, i: int, e: int, upwards: bool, k: int)
    requires
        0 <= i <= k <= e < cols.len(),
    ensures
        upwards ==> farthest(cols, i, e, upwards) <= cols[k].ink_edge,
        !upwards ==> farthest(cols, i, e, upwards) >= cols[k].ink_edge,
        0 <= farthest(cols, i, e, upwards) <= u32::MAX,
    decreases e - i,
{
    if i < e {
        if k < e {
            lemma_farthest_of_all(cols, i, e - 1, upwards, k);
        } else {
            lemma_farthest_of_all(cols, i, e - 1, upwards, i);
        }
    }
}

/// The farthest one is one of the group.
proof fn lemma_farthest_is_one(cols: Seq<ColInk>, i: int, e: int, upwards: bool) -> (k: int)
    requires
        0 <= i <= e < cols.len(),
    ensures
        i <= k <= e,
        farthest(cols, i, e, upwards) == cols[k].ink_edge,
    decreases e - i,
{
    if i < e {
        let k = lemma_farthest_is_one(cols, i, e - 1, upwards);
        if upwards == (cols[e].ink_edge < farthest(cols, i, e - 1, upwards)) {
            e
        } else {
            k
        }
    } else {
        i
    }
}

/// Every column is in a group, and the group's rectangle is listed.
proof fn lemma_box_of_column(
    img: &GrayImage,
    cols: Seq<ColInk>,
    start: int,
    region: Region,
    c: int,
) -> (res: (int, int, int))
    requires
        0 <= start <= c < cols.len(),
    ensures
        ({
            let (k, i, e) = res;
            &&& 0 <= k < boxes(img, cols, start, region).len()
            &&& start <= i <= c <= e < cols.len()
            &&& boxes(img, cols, start, region)[k] == group_box(img, cols, i, e, region)
        }),
    decreases cols.len() - start,
{
    let e = group_end(cols, start, region.col_width as int);
    lemma_group_end_inside(cols, start, region.col_width as int);
    let all = boxes(img, cols, start, region);
    let rest = boxes(img, cols, e + 1, region);
    if c <= e {
        (0, start, e)
    } else {
        let (k, i, f) = lemma_box_of_column(img, cols, e + 1, region, c);
        assert(all[k + 1] == rest[k]);
        (k + 1, i, f)
    }
}

/// Every rectangle is that of a group.
pub(crate) proof fn lemma_group_of_box(
    img: &GrayImage,
    cols: Seq<ColInk>,
    start: int,
    region: Region,
    k: int,
) -> (res: (int, int))
    requires
        0 <= start,
        0 <= k < boxes(img, cols, start, region).len(),
    ensures
        ({
            let (i, e) = res;
            &&& start <= i <= e < cols.len()
            &&& e == group_end(cols, i, region.col_width as int)
            &&& boxes(img, cols, start, region)[k] == group_box(img, cols, i, e, region)
            &&& k + 1 < boxes(img, cols, start, region).len() ==> e + 1 < cols.len() && boxes(
                img,
                cols,
                start,
                region,
            )[k + 1].x_left == group_box(
                img,
                cols,
                e + 1,
                group_end(cols, e + 1, region.col_width as int),
                region,
            ).x_left
        }),
    decreases cols.len() - start,
{
    let e = group_end(cols, start, region.col_width as int);
    if start < cols.len() {
        lemma_group_end_inside(cols, start, region.col_width as int);
    }
    let all = boxes(img, cols, start, region);
    let rest = boxes(img, cols, e + 1, region);
    if k == 0 {
        if all.len() > 1 {
            assert(all[1] == rest[0]);
        }
        (start, e)
    } else {
        assert(all[k] == rest[k - 1]);
        let r = lemma_group_of_box(img, cols, e + 1, region, k - 1);
        if k + 1 < all.len() {
            assert(all[k + 1] == rest[k]);
        }
        r
    }
}

/// The ink of a band is covered, with its padding: where a column has ink in
/// a row that is connected with the band, there is a rectangle over the
/// whole column that starts at the band and reaches as far beyond that row
/// as the padding asks for, or to the edge of the page.
#[verifier::rlimit(40)]
pub proof fn lemma_ink_is_covered(
    img: &GrayImage,
    region: Region,
    j: int,
    y: int,
    gap: int,
) -> (k: int)
    requires
        img.wf(),
        region.col_width > 0,
        region.top.finite(),
        region.bot.finite(),
        region.pad.finite(),
        is_column(img, region.col_width as int, j),
        in_region(img, region, y),
        inked_between(
            img,
            column_left(img, region.col_width as int, j),
            column_right(img, region.col_width as int, j),
            y,
        ),
        joined(
            img,
            region,
            column_left(img, region.col_width as int, j),
            column_right(img, region.col_width as int, j),
            y,
            gap,
        ),
        0 <= gap <= 0x100_0000,
        gap <= 4 || 4 * (gap * one_units()) <= 3 * region.pad.value(),
    ensures
        0 <= k < protrusion_boxes(img, region).len(),
        ({
            let b = protrusion_boxes(img, region)[k];
            let half = region.col_width as int / 2;
            &&& b.x_left <= column_left(img, region.col_width as int, j)
            &&& column_right(img, region.col_width as int, j) <= b.x_right
            &&& b.x_left == 0 || b.x_left + half <= column_left(img, region.col_width as int, j)
            &&& b.x_right == img.width || column_right(img, region.col_width as int, j) + half
                <= b.x_right
            &&& if region.upwards {
                &&& b.y_bot == region.bot
                &&& b.y_top.le(whole(y).minus(region.pad)) || b.y_top == (Single { bits: 0 })
            } else {
                &&& b.y_top == region.top
                &&& whole(y).plus(region.pad).le(b.y_bot) || b.y_bot == whole(img.height as int)
            }
        }),
{
    let w = region.col_width as int;
    let x0 = column_left(img, w, j);
    let x1 = column_right(img, w, j);
    let r_top = row_below(img, region.top);
    let r_bot = row_above(img, region.bot);
    lemma_gap_at_least(region.pad, gap);
    lemma_region_rows(img, region, y);
    let edge = lemma_edge_reaches(img, region, x0, x1, y, gap);
    let cols = columns(img, ink_left(img), ink_right(img), r_top, r_bot, region);
    let i = lemma_column_listed(
        img,
        ink_left(img),
        ink_right(img),
        r_top,
        r_bot,
        region,
        j,
        edge,
    );
    lemma_columns_in_order(img, ink_left(img), ink_right(img), r_top, r_bot, region);
    let (k, first, last) = lemma_box_of_column(img, cols, 0, region, i);
    lemma_farthest_of_all(cols, first, last, region.upwards, i);
    let far = farthest(cols, first, last, region.upwards);
    if first < i {
        assert(cols[first].x_right <= cols[i].x_left);
    }
    if i < last {
        assert(cols[i].x_right <= cols[last].x_left);
    }
    assert(cols[first].x_left < cols[first].x_right && cols[last].x_left < cols[last].x_right);
    assert(cols[i].x_left < cols[i].x_right <= ink_right(img));
    lemma_row_number(far);
    lemma_row_number(y);
    lemma_row_number(img.height as int);
    if region.upwards {
        lemma_whole_mono(far, y);
        lemma_plus_mono(whole(far), whole(y), region.pad.neg());
    } else {
        lemma_whole_mono(y, far);
        lemma_plus_mono(whole(y), whole(far), region.pad);
    }
    k
}

/// Ink that is connected step by step is connected row by row.
#[verifier::rlimit(40)]
proof fn lemma_connected_is_joined(
    img: &GrayImage,
    region: Region,
    x0: int,
    x1: int,
    s: int,
    big: int,
    gap: int,
)
    requires
        img.height > 0,
        region.top.finite(),
        region.bot.finite(),
        0 <= s < row_above(img, region.bot) - row_below(img, region.top),
        big <= gap,
        connected(
            scan_ink(
                img,
                x0,
                x1,
                row_below(img, region.top),
                row_above(img, region.bot),
                region.upwards,
            ),
            big,
            s,
        ),
    ensures
        joined(
            img,
            region,
            x0,
            x1,
            scan_row(
                row_below(img, region.top),
                row_above(img, region.bot),
                region.upwards,
                s,
            ),
            gap,
        ),
{
    let up = region.upwards;
    let r_top = row_below(img, region.top);
    let r_bot = row_above(img, region.bot);
    let ink = scan_ink(img, x0, x1, r_top, r_bot, up);
    let y = scan_row(r_top, r_bot, up, s);
    assert forall|a: int, b: int|
        #![trigger inked_between(img, x0, x1, a), inked_between(img, x0, x1, b)]
        in_region(img, region, a) && in_region(img, region, b) && (if up {
            y <= b < a
        } else {
            a < b <= y
        }) && inked_between(img, x0, x1, a) && inked_between(img, x0, x1, b) && (forall|z: int|
            (a < z < b || b < z < a) ==> !#[trigger] inked_between(img, x0, x1, z)) implies b - a
        <= gap + 1 && a - b <= gap + 1 by {
        lemma_region_rows(img, region, a);
        lemma_region_rows(img, region, b);
        let sa = if up {
            r_bot - 1 - a
        } else {
            a - r_top
        };
        let sb = if up {
            r_bot - 1 - b
        } else {
            b - r_top
        };
        lemma_scan(img, x0, x1, r_top, r_bot, up, sa);
        lemma_scan(img, x0, x1, r_top, r_bot, up, sb);
        assert forall|z: int| sa < z < sb implies !#[trigger] ink[z] by {
            lemma_scan(img, x0, x1, r_top, r_bot, up, z);
        }
        assert(ink[sa] && ink[sb]);
    }
}

/// Every rectangle is there for ink: its far edge is that of a row with ink
/// in one of its columns, moved by the padding, and that row is connected
/// with the band, with no more whitespace on the way than four rows or
/// three quarters of the padding.
#[verifier::rlimit(40)]
pub proof fn lemma_boxes_are_there_for_ink(
    img: &GrayImage,
    region: Region,
    gap: int,
    k: int,
) -> (res: (int, int))
    requires
        img.wf(),
        img.height > 0,
        region.col_width > 0,
        region.top.finite(),
        region.bot.finite(),
        region.pad.finite(),
        4 <= gap <= 0x100_0000,
        3 * region.pad.value() <= 4 * (gap * one_units()),
        0 <= k < protrusion_boxes(img, region).len(),
    ensures
        ({
            let (j, y) = res;
            let w = region.col_width as int;
            let b = protrusion_boxes(img, region)[k];
            let zero = Single { bits: 0 };
            &&& is_column(img, w, j)
            &&& in_region(img, region, y)
            &&& inked_between(img, column_left(img, w, j), column_right(img, w, j), y)
            &&& joined(img, region, column_left(img, w, j), column_right(img, w, j), y, gap)
            &&& b.x_left <= column_left(img, w, j)
            &&& column_right(img, w, j) <= b.x_right
            &&& region.upwards ==> b.y_top == whole(y).minus(region.pad) || b.y_top == zero
            &&& !region.upwards ==> b.y_bot == whole(y).plus(region.pad) || b.y_bot == whole(
                img.height as int,
            )
        }),
{
    let w = region.col_width as int;
    let up = region.upwards;
    let r_top = row_below(img, region.top);
    let r_bot = row_above(img, region.bot);
    let l = ink_left(img);
    let r = ink_right(img);
    let cols = columns(img, l, r, r_top, r_bot, region);
    let (first, last) = lemma_group_of_box(img, cols, 0, region, k);
    let c = lemma_farthest_is_one(cols, first, last, up);
    lemma_row_below(img, region.top);
    let j = lemma_listed_column(img, l, r, r_top, r_bot, region, c);
    lemma_columns_in_order(img, l, r, r_top, r_bot, region);
    let x0 = column_left(img, w, j);
    let x1 = column_right(img, w, j);
    let y = cols[c].ink_edge as int;
    let big = max_gap(region.pad);
    let ink = scan_ink(img, x0, x1, r_top, r_bot, up);
    lemma_gap_at_most(region.pad, gap);
    lemma_reach_stops_at_whitespace(ink, big);
    let s = reach(ink, big)->0;
    assert(y == scan_row(r_top, r_bot, up, s));
    lemma_scan(img, x0, x1, r_top, r_bot, up, s);
    lemma_rows_of_region(img, region, y);
    lemma_connected_is_joined(img, region, x0, x1, s, big, gap);
    if first < c {
        assert(cols[first].x_right <= cols[c].x_left);
    }
    if c < last {
        assert(cols[c].x_right <= cols[last].x_left);
    }
    assert(cols[first].x_left < cols[first].x_right && cols[last].x_left < cols[last].x_right
        <= r);
    (j, y)
}

/// Rectangles stand side by side, and columns without ink lie between two
/// of them, more than one column wide.
pub proof fn lemma_boxes_stand_apart(img: &GrayImage, region: Region, k: int)
    requires
        img.wf(),
        img.height > 0,
        region.col_width > 0,
        0 <= k < protrusion_boxes(img, region).len() - 1,
    ensures
        ({
            let a = protrusion_boxes(img, region)[k];
            let b = protrusion_boxes(img, region)[k + 1];
            let half = region.col_width as int / 2;
            (b.x_left + half) - (a.x_right - half) > region.col_width || b.x_left == 0 || a.x_right
                == img.width
        }),
{
    let r_top = row_below(img, region.top);
    let r_bot = row_above(img, region.bot);
    let l = ink_left(img);
    let r = ink_right(img);
    let cols = columns(img, l, r, r_top, r_bot, region);
    let (first, last) = lemma_group_of_box(img, cols, 0, region, k);
    lemma_columns_in_order(img, l, r, r_top, r_bot, region);
    lemma_group_stops(cols, first, region.col_width as int);
    assert(cols[last].x_left < cols[last].x_right <= r);
    assert(cols[last + 1].x_left < cols[last + 1].x_right <= r);
}

/// A group ends where the next column is too far away.
proof fn lemma_group_stops(cols: Seq<ColInk>, i: int, col_width: int)
    requires
        0 <= i < cols.len(),
    ensures
        ({
            let e = group_end(cols, i, col_width);
            e + 1 < cols.len() ==> cols[e + 1].x_left - cols[e].x_right > col_width
        }),
    decreases cols.len() - i,
{
    if i + 1 < cols.len() && cols[i + 1].x_left - cols[i].x_right <= col_width {
        lemma_group_stops(cols, i + 1, col_width);
    }
}

/// A column has ink in some row of a region.
pub open spec fn holds_ink(img: &GrayImage, region: Region, j: int) -> bool {
    let w = region.col_width as int;
    &&& is_column(img, w, j)
    &&& exists|y: int|
        in_region(img, region, y) && #[trigger] inked_between(
            img,
            column_left(img, w, j),
            column_right(img, w, j),
            y,
        )
}

/// Columns with ink, each no farther from the one before it than a column is
/// wide.
pub open spec fn close_columns(img: &GrayImage, region: Region, js: Seq<int>) -> bool {
    let w = region.col_width as int;
    &&& js.len() > 0
    &&& forall|m: int| 0 <= m < js.len() ==> holds_ink(img, region, #[trigger] js[m])
    &&& forall|m: int|
        0 < m < js.len() ==> column_left(img, w, #[trigger] js[m]) - column_right(
            img,
            w,
            js[m - 1],
        ) <= w
}

/// The columns of a group, by their places on the page.
#[verifier::rlimit(40)]
proof fn lemma_places_of_group(
    img: &GrayImage,
    region: Region,
    cols: Seq<ColInk>,
    i: int,
    e: int,
) -> (js: Seq<int>)
    requires
        img.wf(),
        img.height > 0,
        region.col_width > 0,
        region.top.finite(),
        region.bot.finite(),
        row_below(img, region.top) < row_above(img, region.bot),
        cols == columns(
            img,
            ink_left(img),
            ink_right(img),
            row_below(img, region.top),
            row_above(img, region.bot),
            region,
        ),
        0 <= i <= e < cols.len(),
        forall|c: int|
            i <= c < e ==> cols[c + 1].x_left - (#[trigger] cols[c]).x_right <= region.col_width,
        0 <= max_gap(region.pad),
    ensures
        close_columns(img, region, js),
        js.len() == e - i + 1,
        cols[i].x_left == column_left(img, region.col_width as int, js[0]),
        cols[e].x_right == column_right(img, region.col_width as int, js.last()),
    decreases e - i,
{
    let w = region.col_width as int;
    let r_top = row_below(img, region.top);
    let r_bot = row_above(img, region.bot);
    let up = region.upwards;
    lemma_row_below(img, region.top);
    let j = lemma_listed_column(img, ink_left(img), ink_right(img), r_top, r_bot, region, e);
    let x0 = column_left(img, w, j);
    let x1 = column_right(img, w, j);
    let ink = scan_ink(img, x0, x1, r_top, r_bot, up);
    lemma_reach_stops_at_whitespace(ink, max_gap(region.pad));
    let s = reach(ink, max_gap(region.pad))->0;
    let y = scan_row(r_top, r_bot, up, s);
    lemma_scan(img, x0, x1, r_top, r_bot, up, s);
    lemma_rows_of_region(img, region, y);
    assert(in_region(img, region, y) && inked_between(img, x0, x1, y));
    assert(holds_ink(img, region, j));
    if i == e {
        seq![j]
    } else {
        let before = lemma_places_of_group(img, region, cols, i, e - 1);
        let js = before.push(j);
        assert(cols[e - 1].x_right == column_right(img, w, before.last()));
        assert(cols[e - 1 + 1].x_left - cols[e - 1].x_right <= w);
        assert forall|m: int| 0 <= m < js.len() implies holds_ink(
            img,
            region,
            #[trigger] js[m],
        ) by {
            if m < before.len() {
                assert(js[m] == before[m]);
            }
        }
        assert forall|m: int| 0 < m < js.len() implies column_left(img, w, #[trigger] js[m])
            - column_right(img, w, js[m - 1]) <= w by {
            if m < before.len() {
                assert(js[m] == before[m]);
                assert(js[m - 1] == before[m - 1]);
            } else {
                assert(js[m - 1] == before.last());
            }
        }
        assert(js[0] == before[0]);
        js
    }
}

/// The columns of a group follow each other closely.
proof fn lemma_group_is_close(cols: Seq<ColInk>, i: int, col_width: int)
    requires
        0 <= i < cols.len(),
    ensures
        forall|c: int|
            i <= c < group_end(cols, i, col_width) ==> cols[c + 1].x_left - (
            #[trigger] cols[c]).x_right <= col_width,
    decreases cols.len() - i,
{
    if i + 1 < cols.len() && cols[i + 1].x_left - cols[i].x_right <= col_width {
        lemma_group_is_close(cols, i + 1, col_width);
    }
}

/// A rectangle is no wider than its ink: it starts half a column before the
/// first of its columns with ink, ends half a column after the last, and
/// nowhere between them is there more than one column's width without ink.
pub proof fn lemma_boxes_are_no_wider_than_ink(img: &GrayImage, region: Region, k: int) -> (js: Seq<
    int,
>)
    requires
        img.wf(),
        img.height > 0,
        region.col_width > 0,
        region.top.finite(),
        region.bot.finite(),
        region.pad.finite(),
        0 <= k < protrusion_boxes(img, region).len(),
    ensures
        close_columns(img, region, js),
        ({
            let b = protrusion_boxes(img, region)[k];
            let w = region.col_width as int;
            let left = column_left(img, w, js[0]) - w / 2;
            let right = column_right(img, w, js.last()) + w / 2;
            &&& b.x_left == if left < 0 {
                0
            } else {
                left
            }
            &&& b.x_right == if right > img.width {
                img.width as int
            } else {
                right
            }
        }),
{
    let r_top = row_below(img, region.top);
    let r_bot = row_above(img, region.bot);
    let l = ink_left(img);
    let r = ink_right(img);
    let cols = columns(img, l, r, r_top, r_bot, region);
    let (first, last) = lemma_group_of_box(img, cols, 0, region, k);
    lemma_group_is_close(cols, first, region.col_width as int);
    lemma_columns_in_order(img, l, r, r_top, r_bot, region);
    let js = lemma_places_of_group(img, region, cols, first, last);
    assert(cols[first].x_left < cols[first].x_right <= r);
    assert(cols[last].x_left < cols[last].x_right <= r);
    js
}

} // verus!
