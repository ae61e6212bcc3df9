//! The whitespace between staves, in rows and pixels.
use crate::bounds::{lemma_power, lemma_shifted_pattern, lemma_whole_exact, power};
use crate::image::GrayImage;
use crate::monotone::{lemma_rounded_rank, lemma_units_nonneg};
use crate::rounding::{
    lemma_nearest_ge, lemma_nearest_le, lemma_nearest_rounds, lemma_units_at, lemma_units_mono,
    nearest, units,
};
use crate::signal::TWO;
use crate::single::{one_units, rounded, whole, Single};
use crate::sums::lemma_rounding_is_relative;
use crate::whitespace::{
    dark_count, gap_edges, ink_left, ink_right, ink_rows, is_run, lemma_widest, midpoint, row_above,
    row_below, row_counts, total, widest, window_hi, window_lo,
};
use vstd::arithmetic::div_mod::*;
use vstd::arithmetic::power2::*;
use vstd::prelude::*;

verus! {

/// How many pixels of a row are darker than the grey value 200, from column
/// `x0` up to column `x1`.
pub open spec fn dark_pixels(img: &GrayImage, y: int, x0: int, x1: int) -> int
    decreases x1 - x0,
{
    if x1 <= x0 {
        0
    } else {
        dark_pixels(img, y, x0, x1 - 1) + if img.pixel(x1 - 1, y) < 200 {
            1int
        } else {
            0int
        }
    }
}

/// The dark pixels of the rows `lo..hi`, without the outer twentieth of the
/// page on either side.
pub open spec fn ink_of_rows(img: &GrayImage, lo: int, hi: int) -> int
    decreases hi - lo,
{
    if hi <= lo {
        0
    } else {
        let w = img.width as int;
        ink_of_rows(img, lo, hi - 1) + dark_pixels(img, hi - 1, w / 20, w - w / 20)
    }
}

/// A row counts as empty among the rows `start..=end`: in it and the two
/// rows on either side there are no more than two dark pixels to a row.
pub open spec fn blank(img: &GrayImage, start: int, end: int, y: int) -> bool {
    let lo = if y - 2 < start {
        start
    } else {
        y - 2
    };
    let hi = if y + 2 > end {
        end
    } else {
        y + 2
    };
    ink_of_rows(img, lo, hi + 1) <= 2 * (hi + 1 - lo)
}

/// Rows `q..q2` are empty, all of them.
pub open spec fn blank_run(img: &GrayImage, start: int, end: int, q: int, q2: int) -> bool {
    &&& start <= q < q2 <= end + 1
    &&& forall|y: int| q <= y < q2 ==> #[trigger] blank(img, start, end, y)
}

proof fn lemma_dark_pixels(img: &GrayImage, y: int, x0: int, x1: int)
    ensures
        dark_pixels(img, y, x0, x1) == dark_count(img, y, x0, x1),
        0 <= dark_pixels(img, y, x0, x1),
        x0 <= x1 ==> dark_pixels(img, y, x0, x1) <= x1 - x0,
    decreases x1 - x0,
{
    if x0 < x1 {
        lemma_dark_pixels(img, y, x0, x1 - 1);
    }
}

proof fn lemma_ink_of_rows(img: &GrayImage, start: int, end: int, lo: int, hi: int)
    requires
        0 <= lo <= hi <= end + 1 - start,
    ensures
        total(row_counts(img, start, end), lo, hi) == ink_of_rows(img, start + lo, start + hi),
        0 <= ink_of_rows(img, start + lo, start + hi) <= img.width * (hi - lo),
    decreases hi - lo,
{
    if lo < hi {
        let w = img.width as int;
        lemma_ink_of_rows(img, start, end, lo, hi - 1);
        lemma_dark_pixels(img, start + hi - 1, ink_left(img), ink_right(img));
        assert(w * (hi - lo) == w * (hi - 1 - lo) + w) by (nonlinear_arith);
    } else {
        assert(img.width * 0 == 0);
    }
}

/// More than two to a row, in a few rows, is more than two after rounding.
proof fn lemma_more_than_two(t: int, k: int)
    requires
        0 <= t <= 0x100_0000,
        1 <= k <= 5,
    ensures
        (Single { bits: TWO }).lt(whole(t).over(whole(k))) <==> t > 2 * k,
{
    let one = one_units();
    let two = Single { bits: TWO };
    lemma_pow2_pos(149);
    lemma2_to64();
    lemma_units_at(127, 0x80_0000);
    lemma_pow2_adds(127, 22);
    // Two and an eighth.
    lemma_units_at(127, 0x88_0000);
    lemma_pow2_pos(127);
    let e = pow2(127) as int;
    assert(one == 0x40_0000 * e);
    assert(units(0x4008_0000) == 0x88_0000 * e);
    assert(units(two.mag()) == 2 * one);
    lemma_whole_exact(t);
    lemma_whole_exact(k);
    let n = (t * one) * one;
    let d = k * one;
    assert(d > 0 && n >= 0) by (nonlinear_arith)
        requires
            d == k * one,
            n == (t * one) * one,
            k > 0,
            t >= 0,
            one > 0,
    ;
    let q = whole(t).over(whole(k));
    if t <= 2 * k {
        assert(n <= units(two.mag()) * d) by (nonlinear_arith)
            requires
                n == (t * one) * one,
                d == k * one,
                units(two.mag()) == 2 * one,
                t <= 2 * k,
                one > 0,
        ;
        lemma_nearest_le(two.mag(), n, d);
        lemma_nearest_rounds(n, d);
        assert(q.mag() == nearest(n, d));
    } else {
        assert(units(0x4008_0000) * d <= n) by (nonlinear_arith)
            requires
                n == (t * one) * one,
                d == k * one,
                units(0x4008_0000) == 0x88_0000 * e,
                one == 0x40_0000 * e,
                t >= 2 * k + 1,
                k <= 5,
                e > 0,
        ;
        lemma_nearest_ge(0x4008_0000, n, d);
        lemma_rounded_rank(false, n, d);
        assert(q == rounded(false, n, d));
    }
}

/// Which rows count as empty.
proof fn lemma_blank(img: &GrayImage, start: int, end: int, i: int)
    requires
        img.width <= 0x30_0000,
        0 <= i <= end - start,
    ensures
        ink_rows(row_counts(img, start, end))[i] == !blank(img, start, end, start + i),
{
    let counts = row_counts(img, start, end);
    let n = counts.len() as int;
    let lo = window_lo(i);
    let hi = window_hi(i, n);
    lemma_ink_of_rows(img, start, end, lo, hi);
    let w = img.width as int;
    assert(w * (hi - lo) <= 0x100_0000) by (nonlinear_arith)
        requires
            0 <= w <= 0x30_0000,
            1 <= hi - lo <= 5,
    ;
    lemma_more_than_two(total(counts, lo, hi) as int, hi - lo);
}

/// The sum of two whole numbers is exact.
proof fn lemma_whole_sum(a: int, b: int)
    requires
        0 <= a,
        0 <= b,
        a + b <= 0x100_0000,
    ensures
        whole(a).plus(whole(b)) == whole(a + b),
{
    let one = one_units();
    lemma_pow2_pos(149);
    lemma_whole_exact(a);
    lemma_whole_exact(b);
    lemma_whole_exact(a + b);
    let m = whole(a + b).mag();
    let n = (a + b) * one;
    assert(n == a * one + b * one) by (nonlinear_arith)
        requires
            n == (a + b) * one,
    ;
    assert(units(m) * 1 == n);
    lemma_nearest_ge(m, n, 1);
    lemma_nearest_le(m, n, 1);
    lemma_units_at(0, 0);
    lemma2_to64();
    if n == 0 {
        assert(m == 0) by {
            if m > 0 {
                lemma_units_mono(0, m);
            }
        }
    } else {
        assert(n > 0) by (nonlinear_arith)
            requires
                n == (a + b) * one,
                n != 0,
                a + b >= 0,
                one > 0,
        ;
    }
}

/// The middle between two whole numbers is exact.
proof fn lemma_whole_middle(a: int, b: int)
    requires
        0 <= a,
        0 < b,
        a + b <= 0x100_0000,
    ensures
        midpoint(whole(a), whole(b)).finite(),
        2 * midpoint(whole(a), whole(b)).value() == (a + b) * one_units(),
{
    let one = one_units();
    let q = a + b;
    lemma_pow2_pos(149);
    lemma_whole_sum(a, b);
    lemma_whole_exact(q);
    lemma2_to64();
    lemma_units_at(127, 0x80_0000);
    lemma_pow2_adds(127, 22);
    lemma_pow2_unfold(149);
    let half = pow2(148) as int;
    assert(one == 2 * half);
    let m = lemma_shifted_pattern(q, 148);
    let n = (q * one) * one;
    let d = 2 * one;
    assert(units(m) * d == n) by (nonlinear_arith)
        requires
            units(m) == q * half,
            one == 2 * half,
            n == (q * one) * one,
            d == 2 * one,
    ;
    lemma_nearest_ge(m, n, d);
    lemma_nearest_le(m, n, d);
    assert(units(m) <= q * one) by (nonlinear_arith)
        requires
            units(m) == q * half,
            one == 2 * half,
            q > 0,
            half > 0,
    ;
    if m > whole(q).mag() {
        lemma_units_mono(whole(q).mag(), m);
    }
    assert(2 * (q * half) == q * one) by (nonlinear_arith)
        requires
            one == 2 * half,
    ;
}

/// The row at which looking starts: the first that begins at or below the
/// staff above.
proof fn lemma_start_row(img: &GrayImage, y: Single, r: int)
    requires
        img.height > 0,
        y.finite(),
        0 <= r < img.height,
        y.value() <= r * one_units() < y.value() + one_units(),
    ensures
        row_below(img, y) == r,
{
    let one = one_units();
    lemma_pow2_pos(149);
    lemma_units_nonneg(y.mag());
    let u = units(y.mag());
    if y.negative() {
        assert(r == 0) by (nonlinear_arith)
            requires
                r * one < one,
                r >= 0,
                one > 0,
        ;
    } else {
        let n = u + one - 1;
        lemma_fundamental_div_mod(n, one);
        lemma_mod_bound(n, one);
        let k = n / one;
        assert(k == r) by (nonlinear_arith)
            requires
                n == one * k + n % one,
                0 <= n % one < one,
                n == u + one - 1,
                u <= r * one < u + one,
                one > 0,
        ;
    }
}

/// The row at which looking ends: the last that begins at or above the staff
/// below.
proof fn lemma_end_row(img: &GrayImage, y: Single, r: int)
    requires
        img.height > 0,
        y.finite(),
        0 <= r < img.height,
        r * one_units() <= y.value() < (r + 1) * one_units(),
    ensures
        row_above(img, y) == r,
{
    let one = one_units();
    lemma_pow2_pos(149);
    lemma_units_nonneg(y.mag());
    let u = units(y.mag());
    assert(r * one >= 0) by (nonlinear_arith)
        requires
            r >= 0,
            one > 0,
    ;
    lemma_units_at(0, 0);
    lemma2_to64();
    if y.negative() {
        assert(y.value() == 0);
        assert(u == 0);
    }
    lemma_fundamental_div_mod(u, one);
    lemma_mod_bound(u, one);
    let k = u / one;
    assert(k == r) by (nonlinear_arith)
        requires
            u == one * k + u % one,
            0 <= u % one < one,
            r * one <= u < (r + 1) * one,
            one > 0,
    ;
}

/// The border between two staves lies in the middle of the widest
/// whitespace between them: the longest stretch of empty rows, and the
/// topmost of those. Returns where it starts, and the row after its end.
pub proof fn lemma_border_lies_in_widest_gap(
    img: &GrayImage,
    bot: Single,
    next: Single,
    start: int,
    end: int,
) -> (r: (int, int))
    requires
        img.wf(),
        img.width <= 0x30_0000,
        img.height <= 0x40_0000,
        bot.finite(),
        next.finite(),
        0 <= start < end < img.height,
        bot.value() <= start * one_units() < bot.value() + one_units(),
        end * one_units() <= next.value() < (end + 1) * one_units(),
        exists|y: int| start <= y <= end && #[trigger] blank(img, start, end, y),
    ensures
        blank_run(img, start, end, r.0, r.1),
        forall|q: int, q2: int| #[trigger]
            blank_run(img, start, end, q, q2) ==> q2 - q <= r.1 - r.0 && (q2 - q == r.1 - r.0
                ==> r.0 <= q),
        gap_edges(img, bot, next) == (whole(r.0), whole(r.1)),
        ({
            let (upper, lower) = gap_edges(img, bot, next);
            2 * midpoint(upper, lower).value() == (r.0 + r.1) * one_units()
        }),
{
    lemma_start_row(img, bot, start);
    lemma_end_row(img, next, end);
    let ink = ink_rows(row_counts(img, start, end));
    let y0 = choose|y: int| start <= y <= end && #[trigger] blank(img, start, end, y);
    lemma_blank(img, start, end, y0 - start);
    assert(!ink[y0 - start]);
    lemma_widest(ink);
    let (s, l) = widest(ink);
    let r = (start + s, start + s + l);
    assert(is_run(ink, s, l));
    assert forall|y: int| r.0 <= y < r.1 implies #[trigger] blank(img, start, end, y) by {
        lemma_blank(img, start, end, y - start);
        assert(!ink[y - start]);
    }
    assert forall|q: int, q2: int| #[trigger] blank_run(img, start, end, q, q2) implies q2 - q <= r.1
        - r.0 && (q2 - q == r.1 - r.0 ==> r.0 <= q) by {
        assert forall|i: int| q - start <= i < q2 - start implies !#[trigger] ink[i] by {
            lemma_blank(img, start, end, i);
            assert(blank(img, start, end, start + i));
        }
        assert(is_run(ink, q - start, q2 - q));
    }
    lemma_whole_sum(start, s);
    lemma_whole_sum(start + s, l);
    lemma_whole_middle(r.0, r.1);
    r
}

/// Where no whitespace lies between two staves, the border is the middle
/// between them, but for rounding.
pub proof fn lemma_border_without_gap_lies_midway(
    img: &GrayImage,
    bot: Single,
    next: Single,
    start: int,
    end: int,
)
    requires
        img.wf(),
        img.width <= 0x30_0000,
        img.height <= 0x40_0000,
        bot.finite(),
        next.finite(),
        0 <= bot.value() <= 0x100_0000 * one_units(),
        one_units() <= next.value() <= 0x100_0000 * one_units(),
        0 <= start < img.height,
        0 <= end < img.height,
        bot.value() <= start * one_units() < bot.value() + one_units(),
        end * one_units() <= next.value() < (end + 1) * one_units(),
        forall|y: int| start <= y <= end && start < end ==> !#[trigger] blank(img, start, end, y),
    ensures
        gap_edges(img, bot, next).0 == gap_edges(img, bot, next).1,
        gap_edges(img, bot, next).0.finite(),
        ({
            let both = bot.value() + next.value();
            -both <= 0x40_0000 * (2 * gap_edges(img, bot, next).0.value() - both) <= both
        }),
{
    let one = one_units();
    lemma_pow2_pos(149);
    lemma2_to64();
    lemma_start_row(img, bot, start);
    lemma_end_row(img, next, end);
    let ink = ink_rows(row_counts(img, start, end));
    if start < end {
        assert forall|i: int| 0 <= i < ink.len() implies #[trigger] ink[i] by {
            lemma_blank(img, start, end, i);
            assert(!blank(img, start, end, start + i));
        }
    }
    let mid = midpoint(bot, next);
    assert(gap_edges(img, bot, next) == (mid, mid));
    let both = bot.value() + next.value();
    lemma_pow2_adds(26, 123);
    lemma_pow2_pos(123);
    assert(one >= 0x400_0000);
    lemma_rounding_is_relative(both, 1);
    lemma_power(25);
    lemma_power(24);
    lemma_pow2_adds(25, 149);
    lemma_pow2_adds(24, 149);
    lemma_nearest_le(power(25), both, 1);
    let sum = bot.plus(next);
    let s = units(nearest(both, 1));
    assert(sum.mag() == nearest(both, 1));
    assert(sum.value() == s);
    if nearest(both, 1) < power(25) {
        lemma_units_mono(nearest(both, 1), power(25));
    }
    let two = Single { bits: TWO };
    lemma_units_at(127, 0x80_0000);
    lemma_pow2_adds(127, 22);
    let n = s * one;
    let d = 2 * one;
    assert(2 * s >= both);
    assert(n >= 0x80_0000 * d) by (nonlinear_arith)
        requires
            n == s * one,
            d == 2 * one,
            s >= 0x100_0000,
            one > 0,
    ;
    lemma_rounding_is_relative(n, d);
    assert(n <= units(power(24)) * d) by (nonlinear_arith)
        requires
            n == s * one,
            d == 2 * one,
            s <= 2 * units(power(24)),
            one > 0,
    ;
    lemma_nearest_le(power(24), n, d);
    let m = units(nearest(n, d));
    assert(mid.mag() == nearest(n, d));
    assert(mid.value() == m);
    assert(-(2 * m) <= 0x100_0000 * (2 * m - s) <= 2 * m) by (nonlinear_arith)
        requires
            -(m * d) <= 0x100_0000 * (m * d - n) <= m * d,
            n == s * one,
            d == 2 * one,
            one > 0,
    ;
}

} // verus!
