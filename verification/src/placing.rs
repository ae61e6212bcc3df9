//! How staves, borders and bands lie on a page whose rows can all be told
//! apart.
use crate::bounds::{
    lemma_minus_shrinks, lemma_nearest_zero, lemma_order_is_by_value, lemma_plus_nonneg,
    lemma_power, lemma_step_small, lemma_times_between, lemma_whole_exact, lemma_whole_mono, nonneg,
    power,
};
use crate::detect::{
    band_bot, band_top, border, lemma_usable, lines, lower_limit, staff_bot, staff_span,
    stave_tops, upper_limit, usable, BAND_PAD, FOUR, STAFF_REACH, TOP_PAD,
};
use crate::feasible::{has_ink, lemma_filter_of_inked_page};
use crate::image::GrayImage;
use crate::monotone::{
    lemma_nearest_mono, lemma_plus_commutes, lemma_plus_mono, lemma_rounded_rank,
    lemma_units_nonneg,
};
use crate::order::{lemma_sorted, sorted};
use crate::pruning::lemma_pruned_is_a_selection;
use crate::rounding::{
    lemma_nearest_ge, lemma_nearest_le, lemma_nearest_rounds, lemma_units_at, lemma_units_mono,
    nearest, units, MAG_INF,
};
use crate::signal::{levels, THREE, TWO};
use crate::single::{one_units, whole, Single};
use crate::staves::{combed, lemma_peaks_apart, peak_threshold, peaks_of};
use crate::upright::{lemma_row_below, lemma_row_number};
use crate::whitespace::{
    all_inked, ink_rows, lemma_widest, midpoint, row_above, row_below, row_counts, widest,
};
use vstd::arithmetic::div_mod::*;
use vstd::arithmetic::power2::*;
use vstd::prelude::*;

verus! {

/// The most rows that single-precision numbers tell apart.
pub const MOST_ROWS: u32 = 0x100_0000;

/// The row that a whole number is.
pub open spec fn row_of(y: Single) -> int {
    y.truncated(0, u32::MAX as int)
}

/// Staves that start on rows of a page.
pub open spec fn on_rows(tops: Seq<Single>, height: int) -> bool {
    forall|k: int|
        0 <= k < tops.len() ==> 0 <= row_of(#[trigger] tops[k]) < height && tops[k] == whole(
            row_of(tops[k]),
        )
}

/// Staves that follow each other down the page, none starting before the
/// one above it ends.
pub open spec fn apart(tops: Seq<Single>, spacing: Single) -> bool {
    forall|i: int, j: int|
        0 <= i < j < tops.len() ==> (#[trigger] tops[i]).value() + staff_span(spacing).value()
            <= (#[trigger] tops[j]).value()
}

/// A whole number is its own row.
pub(crate) proof fn lemma_row_of_whole(n: int)
    requires
        0 <= n <= MOST_ROWS,
    ensures
        row_of(whole(n)) == n,
{
    lemma_whole_exact(n);
    lemma_pow2_pos(149);
    lemma_div_by_multiple(n, one_units());
}

/// A staff is between 4 and 512 rows high.
pub(crate) proof fn lemma_span(spacing: Single)
    requires
        usable(spacing),
    ensures
        staff_span(spacing).finite(),
        !staff_span(spacing).negative(),
        4 * one_units() <= staff_span(spacing).value() <= 512 * one_units(),
{
    let one = one_units();
    let four = Single { bits: FOUR };
    let span = staff_span(spacing);
    lemma2_to64();
    lemma_pow2_pos(149);
    lemma_power(0);
    lemma_power(2);
    lemma_power(7);
    lemma_power(9);
    lemma_pow2_adds(2, 149);
    lemma_pow2_adds(7, 149);
    lemma_pow2_adds(9, 149);
    if power(0) < spacing.mag() {
        lemma_units_mono(power(0), spacing.mag());
    }
    if spacing.mag() < power(7) {
        lemma_units_mono(spacing.mag(), power(7));
    }
    let u = units(spacing.mag());
    assert(four.mag() == power(2));
    assert((4 * one) * one <= (4 * one) * u <= (512 * one) * one) by (nonlinear_arith)
        requires
            one <= u <= 128 * one,
            one > 0,
    ;
    lemma_times_between(four, spacing, power(2), power(9));
    if power(2) < span.mag() {
        lemma_units_mono(power(2), span.mag());
    }
    if span.mag() < power(9) {
        lemma_units_mono(span.mag(), power(9));
    }
}

/// No two staves are nearer to each other than one is high.
proof fn lemma_radius(spacing: Single)
    requires
        usable(spacing),
    ensures
        ({
            let span = staff_span(spacing);
            let r = span.times(Single { bits: STAFF_REACH }).nearest_whole(usize::MAX as int);
            &&& r >= 1
            &&& r * one_units() >= span.value()
        }),
{
    let one = one_units();
    let reach = Single { bits: STAFF_REACH };
    let span = staff_span(spacing);
    lemma_usable(spacing);
    lemma_span(spacing);
    lemma2_to64();
    lemma_pow2_pos(149);
    let us = units(span.mag());
    // The reach is at least seven quarters.
    lemma_units_at(126, 0xe0_0000);
    lemma_pow2_adds(126, 23);
    lemma_units_mono(0x3fe0_0000, reach.mag());
    let ur = units(reach.mag());
    assert(4 * ur >= 7 * one);
    let x = span.times(reach);
    let n = us * ur;
    assert(n >= 0 && 4 * n >= 7 * (us * one)) by (nonlinear_arith)
        requires
            n == us * ur,
            4 * ur >= 7 * one,
            us >= 4 * one,
            one > 0,
    ;
    lemma_nearest_rounds(n, one);
    let m = nearest(n, one);
    assert(us * one <= n) by (nonlinear_arith)
        requires
            4 * n >= 7 * (us * one),
            us * one >= 0,
    ;
    lemma_nearest_ge(span.mag(), n, one);
    lemma_step_small(m);
    let um = units(m);
    let mid = um + units(m + 1);
    assert(7 * us <= 6 * um) by (nonlinear_arith)
        requires
            2 * n <= mid * one,
            mid <= 3 * um,
            4 * n >= 7 * (us * one),
            one > 0,
    ;
    // The product is finite, so it is this pattern.
    lemma_power(1);
    lemma_power(10);
    lemma_pow2_adds(1, 149);
    lemma_pow2_adds(10, 149);
    lemma_units_mono(reach.mag(), power(1));
    assert(n <= (1024 * one) * one) by (nonlinear_arith)
        requires
            n == us * ur,
            0 <= us <= 512 * one,
            0 <= ur <= 2 * one,
            one > 0,
    ;
    lemma_nearest_le(power(10), n, one);
    assert(x.mag() == m);
    assert(!x.negative());
    let a = 2 * um + one;
    let d = 2 * one;
    let q = a / d;
    lemma_fundamental_div_mod(a, d);
    lemma_mod_bound(a, d);
    assert(q * one >= us) by (nonlinear_arith)
        requires
            a == d * q + a % d,
            a % d < d,
            a == 2 * um + one,
            d == 2 * one,
            7 * us <= 6 * um,
            us >= 4 * one,
            one > 0,
    ;
    assert(x.nearest_whole(usize::MAX as int) == q);
}

/// The staves of a page start on its rows, one below the other.
pub proof fn lemma_staves_are_apart(img: &GrayImage, spacing: Single)
    requires
        img.wf(),
        has_ink(img),
        usable(spacing),
        img.height <= MOST_ROWS,
    ensures
        on_rows(stave_tops(img, spacing), img.height as int),
        apart(stave_tops(img, spacing), spacing),
{
    let one = one_units();
    let conv = combed(levels(img), spacing);
    let radius = staff_span(spacing).times(Single { bits: STAFF_REACH });
    let r = radius.nearest_whole(usize::MAX as int);
    let found = peaks_of(conv, radius);
    let list = found.map_values(|i: int| whole(i));
    let s = sorted(list);
    lemma_usable(spacing);
    lemma_radius(spacing);
    lemma_pow2_pos(149);
    lemma_filter_of_inked_page(img, spacing);
    lemma_peaks_apart(conv, r, peak_threshold(conv), conv.len());
    assert forall|i: int| 0 <= i < list.len() implies !(#[trigger] list[i]).nan() by {
        assert(0 <= found[i] < conv.len());
        lemma_whole_exact(found[i]);
    }
    assert forall|a: int, b: int| 0 <= a < list.len() && 0 <= b < list.len() && a != b implies
        list[a] != list[b] by {
        assert(0 <= found[a] < conv.len());
        assert(0 <= found[b] < conv.len());
        if a < b {
            assert(found[a] + r <= found[b] || found[b] + r <= found[a]);
        } else {
            assert(found[b] + r <= found[a] || found[a] + r <= found[b]);
        }
        lemma_row_of_whole(found[a]);
        lemma_row_of_whole(found[b]);
    }
    assert(list.no_duplicates());
    lemma_sorted(list);
    list.lemma_multiset_has_no_duplicates();
    s.lemma_multiset_has_no_duplicates_conv();
    let kept = lemma_pruned_is_a_selection(s, conv);
    let tops = stave_tops(img, spacing);
    assert forall|k: int| 0 <= k < s.len() implies list.contains(#[trigger] s[k]) by {
        broadcast use vstd::seq_lib::group_to_multiset_ensures;

        assert(s.to_multiset().contains(s[k]));
        assert(list.to_multiset().contains(s[k]));
    }
    assert forall|k: int| 0 <= k < tops.len() implies 0 <= row_of(#[trigger] tops[k]) < img.height
        && tops[k] == whole(row_of(tops[k])) by {
        let x = s[kept[k]];
        assert(tops[k] == x);
        assert(list.contains(x));
        let a = choose|a: int| 0 <= a < list.len() && list[a] == x;
        assert(0 <= found[a] < conv.len());
        lemma_row_of_whole(found[a]);
    }
    assert forall|i: int, j: int| 0 <= i < j < tops.len() implies (#[trigger] tops[i]).value()
        + staff_span(spacing).value() <= (#[trigger] tops[j]).value() by {
        let x = s[kept[i]];
        let y = s[kept[j]];
        assert(kept[i] < kept[j]);
        assert(x != y);
        assert(x.rank() <= y.rank());
        assert(list.contains(x) && list.contains(y));
        let a = choose|a: int| 0 <= a < list.len() && list[a] == x;
        let b = choose|b: int| 0 <= b < list.len() && list[b] == y;
        let p = found[a];
        let q = found[b];
        assert(0 <= found[a] < conv.len());
        assert(0 <= found[b] < conv.len());
        lemma_whole_exact(p);
        lemma_whole_exact(q);
        lemma_order_is_by_value(x, y);
        if a < b {
            assert(p + r <= q || q + r <= p);
        } else {
            assert(a != b);
            assert(q + r <= p || p + r <= q);
        }
        assert(p * one <= q * one);
        if q + r <= p {
            assert(q * one < p * one) by (nonlinear_arith)
                requires
                    q + r <= p,
                    r >= 1,
                    one > 0,
            ;
        }
        assert(p * one + r * one <= q * one) by (nonlinear_arith)
            requires
                p + r <= q,
                one > 0,
        ;
    }
}

/// A normal number that can be doubled.
spec fn doubles(x: Single) -> bool {
    !x.negative() && 0x80_0000 <= x.mag() < MAG_INF - 0x80_0000
}

/// Half of twice a number is the number.
proof fn lemma_half_of_double(x: Single)
    requires
        doubles(x),
    ensures
        x.plus(x).finite(),
        !x.plus(x).negative(),
        x.plus(x).over(Single { bits: TWO }) == x,
{
    let one = one_units();
    let two = Single { bits: TWO };
    let m = x.mag();
    let t = m + 0x80_0000;
    let u = units(m);
    lemma_pow2_pos(149);
    lemma_power(1);
    lemma_pow2_adds(1, 149);
    lemma2_to64();
    assert(two.mag() == power(1));
    assert(t % 0x80_0000 == m % 0x80_0000);
    assert(t / 0x80_0000 == m / 0x80_0000 + 1);
    let e = (m / 0x80_0000 - 1) as nat;
    lemma_pow2_unfold(e + 1);
    let f = 0x80_0000 + m % 0x80_0000;
    assert(f * (2 * pow2(e)) == 2 * (f * pow2(e))) by (nonlinear_arith);
    assert(units(t) == 2 * u);
    lemma_units_mono(0, m);
    assert(units(0) == 0);
    lemma_nearest_ge(t, 2 * u, 1);
    lemma_nearest_le(t, 2 * u, 1);
    assert(x.plus(x).mag() == t);
    let n = (2 * u) * one;
    let d = 2 * one;
    assert(u * d == n) by (nonlinear_arith)
        requires
            n == (2 * u) * one,
            d == 2 * one,
    ;
    assert(n >= 0) by (nonlinear_arith)
        requires
            n == (2 * u) * one,
            u >= 0,
            one > 0,
    ;
    lemma_nearest_ge(m, n, d);
    lemma_nearest_le(m, n, d);
}

/// Half of a larger number is not smaller.
proof fn lemma_half_mono(a: Single, b: Single)
    requires
        a.finite(),
        b.finite(),
        !a.negative(),
        !b.negative(),
        a.le(b),
    ensures
        a.over(Single { bits: TWO }).le(b.over(Single { bits: TWO })),
{
    let one = one_units();
    let two = Single { bits: TWO };
    let d = units(two.mag());
    lemma_pow2_pos(149);
    lemma_power(1);
    lemma_pow2_adds(1, 149);
    lemma2_to64();
    assert(two.mag() == power(1));
    lemma_units_nonneg(a.mag());
    if a.mag() < b.mag() {
        lemma_units_mono(a.mag(), b.mag());
    }
    let x = units(a.mag());
    let y = units(b.mag());
    assert(0 <= x * one <= y * one) by (nonlinear_arith)
        requires
            0 <= x <= y,
            one > 0,
    ;
    lemma_nearest_mono(x * one, y * one, d);
    lemma_rounded_rank(false, x * one, d);
    lemma_rounded_rank(false, y * one, d);
}

/// The middle of two numbers lies between them.
proof fn lemma_midpoint(a: Single, b: Single)
    requires
        doubles(a),
        doubles(b),
        a.le(b),
    ensures
        a.le(midpoint(a, b)),
        midpoint(a, b).le(b),
        doubles(midpoint(a, b)),
{
    lemma_half_of_double(a);
    lemma_half_of_double(b);
    lemma_plus_mono(a, b, a);
    lemma_plus_mono(a, b, b);
    lemma_plus_commutes(a, b);
    let s = a.plus(b);
    assert(a.plus(a).le(s));
    assert(s.le(b.plus(b)));
    assert(s.finite());
    lemma_plus_nonneg(a, b);
    assert(!s.negative());
    lemma_half_mono(a.plus(a), s);
    lemma_half_mono(s, b.plus(b));
}

/// Small whole numbers add up exactly.
proof fn lemma_whole_plus(a: int, b: int)
    requires
        0 <= a,
        0 <= b,
        a + b <= MOST_ROWS,
    ensures
        whole(a).plus(whole(b)) == whole(a + b),
{
    let one = one_units();
    lemma_whole_exact(a);
    lemma_whole_exact(b);
    lemma_pow2_pos(149);
    assert(a * one + b * one == (a + b) * one) by (nonlinear_arith);
    if a + b == 0 {
        lemma_nearest_zero(1);
        assert(0 * one == 0);
    } else {
        assert((a + b) * one > 0) by (nonlinear_arith)
            requires
                a + b > 0,
                one > 0,
        ;
    }
}

/// A row can be doubled, but for the first one.
proof fn lemma_row_doubles(n: int)
    requires
        1 <= n <= MOST_ROWS,
    ensures
        doubles(whole(n)),
        whole(n).rank() <= power(24),
{
    lemma_whole_exact(n);
    lemma_whole_exact(MOST_ROWS as int);
    lemma_whole_mono(n, MOST_ROWS as int);
    let one = one_units();
    lemma_power(24);
    lemma_pow2_adds(24, 149);
    lemma2_to64();
    lemma_pow2_pos(149);
    let top = whole(MOST_ROWS as int);
    if power(24) < top.mag() {
        lemma_units_mono(power(24), top.mag());
    }
}

/// A staff ends below the row on which it starts, and not below the start
/// of the next one.
proof fn lemma_staff_bot(tops: Seq<Single>, spacing: Single, height: int, k: int)
    requires
        usable(spacing),
        height <= MOST_ROWS,
        on_rows(tops, height),
        0 <= k < tops.len(),
    ensures
        whole(row_of(tops[k]) + 1).le(staff_bot(tops, spacing, k)),
        tops[k].le(staff_bot(tops, spacing, k)),
        nonneg(staff_bot(tops, spacing, k)),
        staff_bot(tops, spacing, k).finite(),
        apart(tops, spacing) && k + 1 < tops.len() ==> doubles(staff_bot(tops, spacing, k))
            && staff_bot(tops, spacing, k).le(tops[k + 1]),
{
    let one = one_units();
    let span = staff_span(spacing);
    let n = row_of(tops[k]);
    assert(0 <= row_of(tops[k]) < height && tops[k] == whole(row_of(tops[k])));
    lemma_span(spacing);
    lemma_pow2_pos(149);
    lemma_whole_exact(n);
    lemma_whole_exact(n + 1);
    let v = n * one + span.value();
    assert((n + 1) * one == n * one + one) by (nonlinear_arith);
    assert(n * one >= 0) by (nonlinear_arith)
        requires
            n >= 0,
            one > 0,
    ;
    assert(units(whole(n + 1).mag()) * 1 <= v);
    lemma_nearest_ge(whole(n + 1).mag(), v, 1);
    lemma_plus_nonneg(tops[k], span);
    // The sum stays far below the largest number.
    let far = power(25);
    lemma_power(25);
    lemma_power(9);
    lemma_power(24);
    lemma_pow2_adds(9, 149);
    lemma_pow2_adds(24, 149);
    lemma_pow2_adds(25, 149);
    lemma2_to64();
    assert(n * one <= 0x100_0000 * one) by (nonlinear_arith)
        requires
            n <= 0x100_0000,
            one > 0,
    ;
    assert(units(far) * 1 == units(far));
    lemma_nearest_le(far, v, 1);
    if apart(tops, spacing) && k + 1 < tops.len() {
        let next = tops[k + 1];
        assert(tops[k].value() + span.value() <= next.value());
        assert(0 <= row_of(tops[k + 1]) < height && tops[k + 1] == whole(row_of(tops[k + 1])));
        lemma_whole_exact(row_of(next));
        assert(units(next.mag()) * 1 == units(next.mag()));
        lemma_nearest_le(next.mag(), v, 1);
        lemma_power(2);
        lemma_pow2_adds(2, 149);
        assert(units(power(2)) * 1 <= v);
        lemma_nearest_ge(power(2), v, 1);
    }
}

/// The border between two staves lies below the end of the upper one and
/// above the end of the lower one, and on the page.
pub proof fn lemma_border_lies_between(
    img: &GrayImage,
    tops: Seq<Single>,
    spacing: Single,
    k: int,
)
    requires
        0 < img.height <= MOST_ROWS,
        usable(spacing),
        on_rows(tops, img.height as int),
        apart(tops, spacing),
        0 <= k < tops.len() - 1,
    ensures
        staff_bot(tops, spacing, k).le(border(img, tops, spacing, k)),
        border(img, tops, spacing, k).le(staff_bot(tops, spacing, k + 1)),
        border(img, tops, spacing, k).le(whole(img.height as int)),
{
    let h = img.height as int;
    let bot = staff_bot(tops, spacing, k);
    let next = tops[k + 1];
    let n = row_of(next);
    assert(0 <= row_of(tops[k + 1]) < h && tops[k + 1] == whole(row_of(tops[k + 1])));
    lemma_staff_bot(tops, spacing, h, k);
    lemma_staff_bot(tops, spacing, h, k + 1);
    lemma_row_number(h);
    lemma_row_number(n);
    lemma_whole_mono(n, n + 1);
    lemma_whole_mono(n + 1, h);
    if n == 0 {
        lemma_whole_exact(0);
        lemma_nearest_zero(1);
    } else {
        lemma_row_doubles(n);
    }
    let start = row_below(img, bot);
    let end = row_above(img, next);
    let ink = ink_rows(row_counts(img, start, end));
    if start >= end || all_inked(ink) {
        let mid = midpoint(bot, next);
        lemma_midpoint(bot, next);
        lemma_midpoint(mid, mid);
    } else {
        let (from, len) = widest(ink);
        lemma_widest(ink);
        lemma_row_below(img, bot);
        let p = start + from;
        let q = p + len;
        assert(q <= end + 1);
        lemma_whole_plus(start, from);
        lemma_whole_plus(p, len);
        lemma_whole_mono(start, p);
        lemma_whole_mono(p, q);
        lemma_whole_mono(q, n + 1);
        if start == 0 {
            lemma_whole_exact(0);
            lemma_nearest_zero(1);
        }
        lemma_row_doubles(p);
        lemma_row_doubles(q);
        lemma_midpoint(whole(p), whole(q));
    }
}

/// A multiple of the distance between staff lines is not below zero.
proof fn lemma_lines(k: u32, spacing: Single)
    requires
        usable(spacing),
        k < MAG_INF,
    ensures
        nonneg(lines(k, spacing)),
{
    let a = Single { bits: k };
    lemma_pow2_pos(149);
    lemma_units_nonneg(a.mag());
    lemma_units_nonneg(spacing.mag());
    let n = units(a.mag()) * units(spacing.mag());
    assert(n >= 0) by (nonlinear_arith)
        requires
            n == units(a.mag()) * units(spacing.mag()),
            units(a.mag()) >= 0,
            units(spacing.mag()) >= 0,
    ;
    lemma_rounded_rank(false, n, one_units());
    lemma_nearest_rounds(n, one_units());
}

/// The band of a staff starts no farther down the page than it ends.
pub proof fn lemma_band_is_upright(img: &GrayImage, tops: Seq<Single>, spacing: Single, k: int)
    requires
        0 < img.height <= MOST_ROWS,
        usable(spacing),
        on_rows(tops, img.height as int),
        apart(tops, spacing),
        0 <= k < tops.len(),
    ensures
        band_top(img, tops, spacing, k).le(band_bot(img, tops, spacing, k)),
{
    let h = img.height as int;
    let bot = staff_bot(tops, spacing, k);
    let n = row_of(tops[k]);
    let upper = upper_limit(img, tops, spacing, k);
    let lower = lower_limit(img, tops, spacing, k);
    assert(0 <= row_of(tops[k]) < h && tops[k] == whole(row_of(tops[k])));
    lemma_staff_bot(tops, spacing, h, k);
    lemma_row_number(n);
    lemma_row_number(h);
    lemma_whole_mono(n, h);
    lemma_lines(BAND_PAD, spacing);
    lemma_lines(TOP_PAD, spacing);
    lemma_lines(THREE, spacing);
    let tight_top = tops[k].minus(lines(BAND_PAD, spacing));
    let tight_bot = bot.plus(lines(BAND_PAD, spacing));
    lemma_minus_shrinks(tops[k], lines(BAND_PAD, spacing));
    lemma_minus_shrinks(tops[k], lines(TOP_PAD, spacing));
    lemma_plus_nonneg(bot, lines(BAND_PAD, spacing));
    lemma_plus_nonneg(bot, lines(THREE, spacing));
    if k > 0 {
        lemma_border_lies_between(img, tops, spacing, k - 1);
    }
    if k < tops.len() - 1 {
        lemma_border_lies_between(img, tops, spacing, k);
    }
    assert(upper.le(bot));
    assert(upper.le(lower));
}

} // verus!
