//! Which staves are dropped as false ones.
use crate::bounds::{
    lemma_nearest_zero, lemma_order_is_by_value, lemma_power, lemma_whole_exact, power,
};
use crate::monotone::lemma_units_nonneg;
use crate::order::{
    all_numbers, ascending, first_min, insert_in_order, is_first_min, lemma_sorted, sorted,
};
use crate::placing::lemma_row_of_whole;
use crate::pruning::{
    gaps, median, outlier, pruned, remote, score, scores, LARGE_GAP, SMALL_GAP, WEAK_SCORE,
};
use crate::rounding::{
    lemma_nearest_ge, lemma_nearest_le, lemma_nearest_rounds, lemma_units_at, lemma_units_mono,
    units,
};
use crate::single::{one_units, whole, Single};
use vstd::arithmetic::div_mod::*;
use vstd::arithmetic::power2::*;
use vstd::prelude::*;

verus! {

/// More rows than any page has at a resolution that is used.
pub const ROWS: u32 = 0x10_0000;

/// Staves on these rows, from the top of the page down.
pub open spec fn stand_on(tops: Seq<Single>, rows: Seq<int>) -> bool {
    &&& tops.len() == rows.len()
    &&& forall|i: int|
        0 <= i < rows.len() ==> 0 <= #[trigger] rows[i] < ROWS && tops[i] == whole(rows[i])
    &&& forall|i: int, j: int| 0 <= i < j < rows.len() ==> #[trigger] rows[i] < #[trigger] rows[j]
}

/// The responses of the comb filter, one for each row.
pub open spec fn answers(conv: Seq<Single>, rows: Seq<int>) -> bool {
    &&& forall|i: int| 0 <= i < conv.len() ==> (#[trigger] conv[i]).finite()
    &&& forall|i: int| 0 <= i < rows.len() ==> #[trigger] rows[i] < conv.len()
}

/// How far a staff is from the next one.
pub open spec fn distance(rows: Seq<int>, i: int) -> int {
    rows[i + 1] - rows[i]
}

/// The response at a staff.
pub open spec fn strength(conv: Seq<Single>, rows: Seq<int>, i: int) -> int {
    conv[rows[i]].value()
}

/// How many of the first `n` numbers have a property.
pub open spec fn count(n: int, holds: spec_fn(int) -> bool) -> nat
    decreases n,
{
    if n <= 0 {
        0
    } else {
        count(n - 1, holds) + if holds(n - 1) {
            1nat
        } else {
            0nat
        }
    }
}

/// Staff `g` and the next one are the closest of all, the first such pair.
pub open spec fn closest(rows: Seq<int>, g: int) -> bool {
    &&& 0 <= g < rows.len() - 1
    &&& forall|i: int| 0 <= i < rows.len() - 1 ==> distance(rows, g) <= #[trigger] distance(rows, i)
    &&& forall|i: int| 0 <= i < g ==> distance(rows, g) < #[trigger] distance(rows, i)
}

/// The distance between two staves is too small: it is below three quarters
/// of the median distance, of half of all distances that is.
pub open spec fn too_close(rows: Seq<int>, g: int) -> bool {
    2 * count(rows.len() - 1, |i: int| 4 * distance(rows, g) < 3 * distance(rows, i))
        >= rows.len() - 1
}

/// How many elements of a sequence have a rank of at least `t`.
spec fn ranked(s: Seq<Single>, t: int) -> nat
    decreases s.len(),
{
    if s.len() == 0 {
        0
    } else {
        ranked(s.drop_last(), t) + if s.last().rank() >= t {
            1nat
        } else {
            0nat
        }
    }
}

proof fn lemma_ranked_push(s: Seq<Single>, x: Single, t: int)
    ensures
        ranked(s.push(x), t) == ranked(s, t) + if x.rank() >= t {
            1nat
        } else {
            0nat
        },
{
    assert(s.push(x).drop_last() =~= s);
}

proof fn lemma_ranked_insert(s: Seq<Single>, x: Single, t: int)
    ensures
        ranked(insert_in_order(s, x), t) == ranked(s, t) + if x.rank() >= t {
            1nat
        } else {
            0nat
        },
    decreases s.len(),
{
    if s.len() == 0 || !x.lt(s.last()) {
        lemma_ranked_push(s, x, t);
    } else {
        let f = s.drop_last();
        lemma_ranked_insert(f, x, t);
        lemma_ranked_push(insert_in_order(f, x), s.last(), t);
    }
}

proof fn lemma_ranked_sorted(s: Seq<Single>, t: int)
    ensures
        ranked(sorted(s), t) == ranked(s, t),
    decreases s.len(),
{
    if s.len() > 0 {
        lemma_ranked_sorted(s.drop_last(), t);
        lemma_ranked_insert(sorted(s.drop_last()), s.last(), t);
    }
}

proof fn lemma_ranked_ascending(s: Seq<Single>, t: int, k: int)
    requires
        ascending(s),
        0 <= k < s.len(),
    ensures
        s[k].rank() < t ==> ranked(s, t) <= s.len() - 1 - k,
        s[k].rank() >= t ==> ranked(s, t) >= s.len() - k,
        ranked(s, t) <= s.len(),
    decreases s.len(),
{
    let f = s.drop_last();
    assert forall|i: int, j: int| 0 <= i <= j < f.len() implies (#[trigger] f[i]).rank() <= (
    #[trigger] f[j]).rank() by {
        assert(s[i].rank() <= s[j].rank());
    }
    assert(s[k].rank() <= s[s.len() - 1].rank());
    if k < f.len() {
        lemma_ranked_ascending(f, t, k);
        assert(f[k] == s[k]);
    } else if f.len() > 0 {
        lemma_ranked_ascending(f, t, f.len() - 1);
        assert(f[f.len() - 1].rank() <= s[k].rank());
        if s[k].rank() < t {
            lemma_none_ranked(f, t);
        }
    }
}

proof fn lemma_none_ranked(s: Seq<Single>, t: int)
    requires
        forall|i: int| 0 <= i < s.len() ==> (#[trigger] s[i]).rank() < t,
    ensures
        ranked(s, t) == 0,
    decreases s.len(),
{
    if s.len() > 0 {
        let f = s.drop_last();
        assert forall|i: int| 0 <= i < f.len() implies (#[trigger] f[i]).rank() < t by {
            assert(f[i] == s[i]);
        }
        lemma_none_ranked(f, t);
        assert(s[s.len() - 1].rank() < t);
    }
}

/// The upper median has a rank of at least `t` where as many elements do as
/// there are from the middle on.
proof fn lemma_median_ranked(s: Seq<Single>, t: int)
    requires
        s.len() > 0,
        all_numbers(s),
    ensures
        median(s).rank() >= t <==> ranked(s, t) >= s.len() - s.len() as int / 2,
{
    lemma_sorted(s);
    lemma_ranked_sorted(s, t);
    lemma_ranked_ascending(sorted(s), t, s.len() as int / 2);
}

/// The upper median is one of the elements.
proof fn lemma_median_is_one(s: Seq<Single>) -> (k: int)
    requires
        s.len() > 0,
        all_numbers(s),
    ensures
        0 <= k < s.len(),
        median(s) == s[k],
{
    lemma_sorted(s);
    broadcast use vstd::seq_lib::group_to_multiset_ensures;

    let t = sorted(s);
    let x = t[s.len() as int / 2];
    assert(t.to_multiset().contains(x));
    assert(s.to_multiset().contains(x));
    assert(s.contains(x));
    choose|k: int| 0 <= k < s.len() && s[k] == x
}

/// Counting elements by their ranks is counting places.
proof fn lemma_ranked_count(s: Seq<Single>, t: int, holds: spec_fn(int) -> bool)
    requires
        forall|i: int| 0 <= i < s.len() ==> ((#[trigger] s[i]).rank() >= t <==> holds(i)),
    ensures
        ranked(s, t) == count(s.len() as int, holds),
    decreases s.len(),
{
    if s.len() > 0 {
        let f = s.drop_last();
        assert forall|i: int| 0 <= i < f.len() implies ((#[trigger] f[i]).rank() >= t <==> holds(
            i,
        )) by {
            assert(f[i] == s[i]);
        }
        lemma_ranked_count(f, t, holds);
        assert(s[s.len() - 1].rank() >= t <==> holds(s.len() - 1));
    }
}

/// Where more places are counted, more have the property.
proof fn lemma_count_mono(n: int, p: spec_fn(int) -> bool, q: spec_fn(int) -> bool)
    requires
        forall|i: int| 0 <= i < n && #[trigger] p(i) ==> q(i),
    ensures
        count(n, p) <= count(n, q),
    decreases n,
{
    if n > 0 {
        lemma_count_mono(n - 1, p, q);
    }
}

/// Rows subtract exactly.
proof fn lemma_whole_minus(a: int, b: int)
    requires
        0 <= a <= b <= 0x100_0000,
    ensures
        whole(b).minus(whole(a)) == whole(b - a),
{
    let one = one_units();
    lemma_whole_exact(a);
    lemma_whole_exact(b);
    lemma_whole_exact(b - a);
    lemma_pow2_pos(149);
    let y = whole(a).neg();
    assert(y.mag() == whole(a).mag());
    assert(y.value() == -(a * one));
    assert(b * one - a * one == (b - a) * one) by (nonlinear_arith);
    if a == b {
        lemma_nearest_zero(1);
        assert(0 * one == 0);
    } else {
        assert((b - a) * one > 0) by (nonlinear_arith)
            requires
                b > a,
                one > 0,
        ;
    }
}

/// The distances between staves are whole numbers.
proof fn lemma_gaps(tops: Seq<Single>, rows: Seq<int>)
    requires
        stand_on(tops, rows),
        rows.len() > 1,
    ensures
        gaps(tops).len() == rows.len() - 1,
        all_numbers(gaps(tops)),
        forall|i: int|
            0 <= i < rows.len() - 1 ==> #[trigger] gaps(tops)[i] == whole(distance(rows, i)) && 0
                < distance(rows, i) < ROWS,
{
    assert forall|i: int| 0 <= i < rows.len() - 1 implies #[trigger] gaps(tops)[i] == whole(
        distance(rows, i),
    ) && 0 < distance(rows, i) < ROWS by {
        assert(0 <= rows[i] < ROWS && tops[i] == whole(rows[i]));
        assert(0 <= rows[i + 1] < ROWS && tops[i + 1] == whole(rows[i + 1]));
        assert(rows[i] < rows[i + 1]);
        lemma_whole_minus(rows[i], rows[i + 1]);
    }
    assert forall|i: int| 0 <= i < gaps(tops).len() implies !(#[trigger] gaps(tops)[i]).nan() by {
        lemma_whole_exact(distance(rows, i));
    }
}

/// Whole numbers rank as they are.
proof fn lemma_whole_ranks(a: int, b: int)
    requires
        0 <= a <= 0x100_0000,
        0 <= b <= 0x100_0000,
    ensures
        whole(a).rank() < whole(b).rank() <==> a < b,
        whole(a).rank() <= whole(b).rank() <==> a <= b,
{
    let one = one_units();
    lemma_pow2_pos(149);
    lemma_whole_exact(a);
    lemma_whole_exact(b);
    lemma_order_is_by_value(whole(a), whole(b));
    assert((a < b) == (a * one < b * one)) by (nonlinear_arith)
        requires
            one > 0,
    ;
    assert((a <= b) == (a * one <= b * one)) by (nonlinear_arith)
        requires
            one > 0,
    ;
}

/// The first smallest gap is that of the closest staves.
proof fn lemma_closest(tops: Seq<Single>, rows: Seq<int>, g: int)
    requires
        stand_on(tops, rows),
        closest(rows, g),
    ensures
        first_min(gaps(tops)) == g,
{
    let s = gaps(tops);
    lemma_gaps(tops, rows);
    assert forall|j: int| 0 <= j < s.len() implies s[g].rank() <= (#[trigger] s[j]).rank() by {
        assert(s[j] == whole(distance(rows, j)));
        assert(s[g] == whole(distance(rows, g)));
        lemma_whole_ranks(distance(rows, g), distance(rows, j));
    }
    assert forall|j: int| 0 <= j < g implies s[g].rank() < (#[trigger] s[j]).rank() by {
        assert(s[j] == whole(distance(rows, j)));
        assert(s[g] == whole(distance(rows, g)));
        lemma_whole_ranks(distance(rows, g), distance(rows, j));
    }
    assert(is_first_min(s, g));
    let c = first_min(s);
    assert(is_first_min(s, c));
    assert(s[c].rank() <= s[g].rank());
    assert(s[g].rank() <= s[c].rank());
}

/// The median of the distances: the largest that as many distances reach as
/// there are from the middle on.
proof fn lemma_median_distance(tops: Seq<Single>, rows: Seq<int>) -> (med: int)
    requires
        stand_on(tops, rows),
        rows.len() > 1,
    ensures
        0 < med < ROWS,
        median(gaps(tops)) == whole(med),
        forall|d: int|
            0 <= d < ROWS ==> (med >= d <==> 2 * count(
                rows.len() - 1,
                |i: int| distance(rows, i) >= d,
            ) >= rows.len() - 1) || !#[trigger] is_row(d),
{
    let s = gaps(tops);
    lemma_gaps(tops, rows);
    let k = lemma_median_is_one(s);
    assert(s[k] == whole(distance(rows, k)));
    let med = distance(rows, k);
    assert forall|d: int| 0 <= d < ROWS && #[trigger] is_row(d) implies (med >= d <==> 2 * count(
        rows.len() - 1,
        |i: int| distance(rows, i) >= d,
    ) >= rows.len() - 1) by {
        let holds = |i: int| distance(rows, i) >= d;
        let t = whole(d).rank();
        assert forall|i: int| 0 <= i < s.len() implies ((#[trigger] s[i]).rank() >= t <==> holds(
            i,
        )) by {
            assert(s[i] == whole(distance(rows, i)));
            lemma_whole_ranks(d, distance(rows, i));
        }
        lemma_ranked_count(s, t, holds);
        lemma_median_ranked(s, t);
        lemma_whole_ranks(d, med);
    }
    med
}

/// A number that a distance can be compared with.
spec fn is_row(d: int) -> bool {
    true
}

/// Counting in two ways gives the same.
proof fn lemma_count_same(n: int, p: spec_fn(int) -> bool, q: spec_fn(int) -> bool)
    requires
        forall|i: int| 0 <= i < n ==> (#[trigger] p(i) <==> q(i)),
    ensures
        count(n, p) == count(n, q),
    decreases n,
{
    if n > 0 {
        lemma_count_same(n - 1, p, q);
        assert(p(n - 1) <==> q(n - 1));
    }
}

/// A ratio of two distances is compared with a fraction as it should be.
proof fn lemma_ratio_small(a: int, m: int)
    requires
        0 < a < ROWS,
        0 < m < ROWS,
    ensures
        whole(a).over(whole(m)).lt(Single { bits: SMALL_GAP }) <==> 4 * a < 3 * m,
        !whole(a).over(whole(m)).nan(),
{
    let one = one_units();
    let c = Single { bits: SMALL_GAP };
    lemma_pow2_pos(149);
    lemma_whole_exact(a);
    lemma_whole_exact(m);
    let n = (a * one) * one;
    let d = m * one;
    assert(n >= 0 && d > 0) by (nonlinear_arith)
        requires
            n == (a * one) * one,
            d == m * one,
            a > 0,
            m > 0,
            one > 0,
    ;
    lemma_nearest_rounds(n, d);
    // Three quarters, and the number before it.
    let hi = 0x3f40_0000;
    let lo = 0x3f3f_ffff;
    let e = pow2(125) as int;
    lemma_pow2_pos(125);
    lemma_units_at(125, 0xc0_0000);
    lemma_units_at(125, 0xbf_ffff);
    assert(125 * 0x80_0000 + 0xc0_0000 == hi);
    assert(125 * 0x80_0000 + 0xbf_ffff == lo);
    lemma_pow2_adds(125, 24);
    lemma2_to64();
    assert(one == e * 0x100_0000);
    assert(units(hi) == 0xc0_0000 * e && units(lo) == 0xbf_ffff * e);
    if 4 * a < 3 * m {
        assert(n <= (0xbf_ffff * e) * d) by (nonlinear_arith)
            requires
                4 * a + 1 <= 3 * m,
                m < 0x10_0000,
                n == (a * one) * one,
                d == m * one,
                one == e * 0x100_0000,
                e > 0,
                a > 0,
        ;
        lemma_nearest_le(lo, n, d);
    } else {
        assert((0xc0_0000 * e) * d <= n) by (nonlinear_arith)
            requires
                4 * a >= 3 * m,
                n == (a * one) * one,
                d == m * one,
                one == e * 0x100_0000,
                e > 0,
                m > 0,
        ;
        lemma_nearest_ge(hi, n, d);
    }
}

/// The same for a ratio above eight fifths.
proof fn lemma_ratio_large(a: int, m: int)
    requires
        0 < a < ROWS,
        0 < m < ROWS,
    ensures
        (Single { bits: LARGE_GAP }).lt(whole(a).over(whole(m))) <==> 5 * a > 8 * m,
{
    let one = one_units();
    lemma_pow2_pos(149);
    lemma_whole_exact(a);
    lemma_whole_exact(m);
    let n = (a * one) * one;
    let d = m * one;
    assert(n >= 0 && d > 0) by (nonlinear_arith)
        requires
            n == (a * one) * one,
            d == m * one,
            a > 0,
            m > 0,
            one > 0,
    ;
    lemma_nearest_rounds(n, d);
    let mid = 0x3fcc_cccd;
    let up = 0x3fcc_ccce;
    let e = pow2(126) as int;
    lemma_pow2_pos(126);
    lemma_units_at(126, 0xcc_cccd);
    lemma_units_at(126, 0xcc_ccce);
    assert(126 * 0x80_0000 + 0xcc_cccd == mid);
    assert(126 * 0x80_0000 + 0xcc_ccce == up);
    lemma_pow2_adds(126, 23);
    lemma2_to64();
    assert(one == e * 0x80_0000);
    if 5 * a > 8 * m {
        assert((0xcc_ccce * e) * d <= n) by (nonlinear_arith)
            requires
                5 * a >= 8 * m + 1,
                0 < m < 0x10_0000,
                n == (a * one) * one,
                d == m * one,
                one == e * 0x80_0000,
                e > 0,
        ;
        lemma_nearest_ge(up, n, d);
    } else {
        assert(n <= (0xcc_cccd * e) * d) by (nonlinear_arith)
            requires
                5 * a <= 8 * m,
                m > 0,
                n == (a * one) * one,
                d == m * one,
                one == e * 0x80_0000,
                e > 0,
        ;
        lemma_nearest_le(mid, n, d);
    }
}

/// Whether two staves are too close, in the numbers of the library.
proof fn lemma_too_close(tops: Seq<Single>, rows: Seq<int>, g: int)
    requires
        stand_on(tops, rows),
        rows.len() > 4,
        closest(rows, g),
    ensures
        gaps(tops)[g].over(median(gaps(tops))).lt(Single { bits: SMALL_GAP }) <==> too_close(
            rows,
            g,
        ),
{
    lemma_gaps(tops, rows);
    let med = lemma_median_distance(tops, rows);
    let a = distance(rows, g);
    assert(gaps(tops)[g] == whole(distance(rows, g)));
    lemma_ratio_small(a, med);
    // The least whole number that is more than four thirds of it.
    let d = 4 * a / 3 + 1;
    let holds = |i: int| 4 * distance(rows, g) < 3 * distance(rows, i);
    let at = |i: int| distance(rows, i) >= d;
    assert forall|i: int| 0 <= i < rows.len() - 1 implies (#[trigger] holds(i) <==> at(i)) by {}
    lemma_count_same(rows.len() - 1, holds, at);
    if d < ROWS {
        assert(is_row(d));
        assert(med >= d <==> 2 * count(rows.len() - 1, at) >= rows.len() - 1);
    } else {
        assert forall|i: int| 0 <= i < rows.len() - 1 implies !#[trigger] holds(i) by {
            assert(gaps(tops)[i] == whole(distance(rows, i)));
        }
        lemma_count_none(rows.len() - 1, holds);
    }
}

proof fn lemma_count_none(n: int, p: spec_fn(int) -> bool)
    requires
        forall|i: int| 0 <= i < n ==> !#[trigger] p(i),
    ensures
        count(n, p) == 0,
    decreases n,
{
    if n > 0 {
        lemma_count_none(n - 1, p);
    }
}

/// The score of a staff is the response at its row.
proof fn lemma_scores(tops: Seq<Single>, rows: Seq<int>, conv: Seq<Single>)
    requires
        stand_on(tops, rows),
        answers(conv, rows),
        conv.len() <= usize::MAX,
    ensures
        scores(conv, tops).len() == rows.len(),
        all_numbers(scores(conv, tops)),
        forall|i: int|
            0 <= i < rows.len() ==> #[trigger] scores(conv, tops)[i] == conv[rows[i]] && score(
                conv,
                tops[i],
            ) == conv[rows[i]] && conv[rows[i]].finite(),
{
    assert forall|i: int| 0 <= i < rows.len() implies #[trigger] scores(conv, tops)[i]
        == conv[rows[i]] && score(conv, tops[i]) == conv[rows[i]] && conv[rows[i]].finite() by {
        assert(0 <= rows[i] < ROWS && tops[i] == whole(rows[i]));
        assert(rows[i] < conv.len());
        lemma_row_of_whole(rows[i]);
        lemma_whole_exact(rows[i]);
        let one = one_units();
        lemma_pow2_pos(149);
        lemma_div_by_multiple(rows[i], one);
        assert(tops[i].truncated(0, usize::MAX as int) == rows[i]);
    }
}

/// Where there are more staves than make whole systems, and the two closest
/// ones are too close, one of these two goes: the one whose response is not
/// above that of the other, the upper one where they are equal.
pub proof fn lemma_weaker_of_two_goes(
    tops: Seq<Single>,
    rows: Seq<int>,
    conv: Seq<Single>,
    g: int,
) -> (k: int)
    requires
        stand_on(tops, rows),
        answers(conv, rows),
        conv.len() <= usize::MAX,
        rows.len() > 4,
        rows.len() % 4 != 0,
        closest(rows, g),
        too_close(rows, g),
    ensures
        k == g || k == g + 1,
        strength(conv, rows, k) <= strength(conv, rows, g + (g + 1) - k),
        strength(conv, rows, g) == strength(conv, rows, g + 1) ==> k == g,
        pruned(tops, conv) == pruned(tops.remove(k), conv),
{
    lemma_gaps(tops, rows);
    lemma_closest(tops, rows, g);
    lemma_too_close(tops, rows, g);
    lemma_scores(tops, rows, conv);
    assert(scores(conv, tops)[g] == conv[rows[g]]);
    assert(scores(conv, tops)[g + 1] == conv[rows[g + 1]]);
    lemma_order_is_by_value(conv[rows[g]], conv[rows[g + 1]]);
    let k = if strength(conv, rows, g) <= strength(conv, rows, g + 1) {
        g
    } else {
        g + 1
    };
    assert(outlier(tops, conv) == Some(k));
    k
}

/// The response at staff `e` is below half of the median response: half of
/// all responses are more than twice as strong. The median is not so small
/// that half of it has no pattern of its own.
pub open spec fn too_weak(conv: Seq<Single>, rows: Seq<int>, e: int) -> bool {
    2 * count(
        rows.len() as int,
        |i: int| 2 * strength(conv, rows, e) < strength(conv, rows, i) && 0x100_0000 <= strength(
            conv,
            rows,
            i,
        ),
    ) >= rows.len()
}

/// The response at staff `e` is not below half of the median response: more
/// than half of all responses are at most twice as strong.
pub open spec fn not_weak(conv: Seq<Single>, rows: Seq<int>, e: int) -> bool {
    2 * count(
        rows.len() as int,
        |i: int| strength(conv, rows, i) <= 2 * strength(conv, rows, e),
    ) > rows.len()
}

/// The distance at staff `e` is more than eight fifths of the median
/// distance: more than half of all distances are smaller than five eighths
/// of it.
pub open spec fn too_far(rows: Seq<int>, e: int) -> bool {
    2 * count(rows.len() - 1, |i: int| 8 * distance(rows, i) < 5 * distance(rows, e))
        > rows.len() - 1
}

/// Half of a number that is not tiny is exact.
proof fn lemma_half(x: Single)
    requires
        x.finite(),
        !x.negative(),
        x.mag() >= 0x100_0000,
    ensures
        2 * x.times(Single { bits: WEAK_SCORE }).value() == x.value(),
        x.times(Single { bits: WEAK_SCORE }).finite(),
        !x.times(Single { bits: WEAK_SCORE }).negative(),
{
    let one = one_units();
    let half = Single { bits: WEAK_SCORE };
    let m = x.mag();
    let t = m - 0x80_0000;
    lemma_pow2_pos(149);
    lemma_power(-1);
    lemma_pow2_unfold(149);
    lemma2_to64();
    assert(half.mag() == power(-1));
    let e = (t / 0x80_0000 - 1) as nat;
    assert(m % 0x80_0000 == t % 0x80_0000);
    assert(m / 0x80_0000 == t / 0x80_0000 + 1);
    lemma_pow2_unfold(e + 1);
    let f = 0x80_0000 + t % 0x80_0000;
    assert(f * (2 * pow2(e)) == 2 * (f * pow2(e))) by (nonlinear_arith);
    assert(units(m) == 2 * units(t));
    let h = pow2(148) as int;
    let ut = units(t);
    assert((2 * ut) * h == ut * (2 * h)) by (nonlinear_arith);
    let n = units(m) * h;
    lemma_units_nonneg(t);
    assert(n >= 0) by (nonlinear_arith)
        requires
            n == ut * (2 * h),
            ut >= 0,
            h >= 0,
    ;
    assert(units(t) * one == n);
    lemma_nearest_ge(t, n, one);
    lemma_nearest_le(t, n, one);
}

/// How a response lies to half of the median.
proof fn lemma_weakness(tops: Seq<Single>, rows: Seq<int>, conv: Seq<Single>, e: int)
    requires
        stand_on(tops, rows),
        answers(conv, rows),
        conv.len() <= usize::MAX,
        rows.len() > 4,
        0 <= e < rows.len(),
        forall|i: int| 0 <= i < conv.len() ==> !(#[trigger] conv[i]).negative(),
    ensures
        too_weak(conv, rows, e) ==> conv[rows[e]].lt(
            median(scores(conv, tops)).times(Single { bits: WEAK_SCORE }),
        ),
        not_weak(conv, rows, e) ==> !conv[rows[e]].lt(
            median(scores(conv, tops)).times(Single { bits: WEAK_SCORE }),
        ),
{
    let s = scores(conv, tops);
    let n = rows.len() as int;
    lemma_scores(tops, rows, conv);
    let k = lemma_median_is_one(s);
    let m = median(s);
    let x = conv[rows[e]];
    assert(s[k] == conv[rows[k]]);
    assert(s[e] == conv[rows[e]]);
    assert(!conv[rows[e]].negative() && !conv[rows[k]].negative());
    lemma_units_nonneg(m.mag());
    lemma_units_nonneg(x.mag());
    let half = m.times(Single { bits: WEAK_SCORE });
    if too_weak(conv, rows, e) {
        let holds = |i: int|
            2 * strength(conv, rows, e) < strength(conv, rows, i) && 0x100_0000 <= strength(
                conv,
                rows,
                i,
            );
        // The first pattern that is more than twice as large, and not tiny.
        let t = if m.mag() >= 0 {
            m.mag() + 1
        } else {
            0
        };
        if !holds(k) {
            // Whatever has it ranks above the median.
            assert forall|i: int| 0 <= i < n && #[trigger] holds(i) implies s[i].rank() >= t by {
                assert(s[i] == conv[rows[i]]);
                assert(!conv[rows[i]].negative());
                if s[i].mag() < m.mag() {
                    lemma_units_mono(s[i].mag(), m.mag());
                }
            }
            let up = |i: int| s[i].rank() >= t;
            lemma_count_mono(n, holds, up);
            assert forall|i: int| 0 <= i < s.len() implies ((#[trigger] s[i]).rank() >= t <==> up(
                i,
            )) by {}
            lemma_ranked_count(s, t, up);
            lemma_median_ranked(s, t);
            assert(false);
        }
        assert(m.value() >= 0x100_0000 && 2 * x.value() < m.value());
        if m.mag() < 0x100_0000 {
            lemma_units_at(0, m.mag());
            lemma2_to64();
            assert(units(m.mag()) == m.mag());
        }
        lemma_half(m);
        lemma_order_is_by_value(x, half);
    }
    if not_weak(conv, rows, e) {
        let holds = |i: int| strength(conv, rows, i) <= 2 * strength(conv, rows, e);
        if !holds(k) {
            let t = m.rank();
            let up = |i: int| s[i].rank() >= t;
            assert forall|i: int| 0 <= i < s.len() implies ((#[trigger] s[i]).rank() >= t <==> up(
                i,
            )) by {}
            lemma_ranked_count(s, t, up);
            lemma_median_ranked(s, t);
            let not = |i: int| !holds(i);
            assert forall|i: int| 0 <= i < n && #[trigger] up(i) implies not(i) by {
                assert(s[i] == conv[rows[i]]);
                assert(!conv[rows[i]].negative());
                if m.mag() < s[i].mag() {
                    lemma_units_mono(m.mag(), s[i].mag());
                }
            }
            lemma_count_mono(n, up, not);
            lemma_count_split(n, holds, not);
            assert(false);
        }
        assert(m.value() <= 2 * x.value());
        // Half of the median rounds to no more than the response.
        let one = one_units();
        let h = Single { bits: WEAK_SCORE };
        lemma_pow2_pos(149);
        lemma_power(-1);
        lemma_pow2_unfold(149);
        lemma2_to64();
        assert(h.mag() == power(-1));
        let um = units(m.mag());
        let ux = units(x.mag());
        let uh = pow2(148) as int;
        assert(0 <= um * uh <= ux * one) by (nonlinear_arith)
            requires
                0 <= um <= 2 * ux,
                one == 2 * uh,
                uh >= 0,
        ;
        lemma_nearest_le(x.mag(), um * uh, one);
    }
}

proof fn lemma_count_split(n: int, p: spec_fn(int) -> bool, q: spec_fn(int) -> bool)
    requires
        n >= 0,
        forall|i: int| 0 <= i < n ==> (#[trigger] p(i) <==> !q(i)),
    ensures
        count(n, p) + count(n, q) == n,
    decreases n,
{
    if n > 0 {
        lemma_count_split(n - 1, p, q);
        assert(p(n - 1) <==> !q(n - 1));
    }
}

/// How a distance lies to the median.
proof fn lemma_far(tops: Seq<Single>, rows: Seq<int>, e: int)
    requires
        stand_on(tops, rows),
        rows.len() > 4,
        0 <= e < rows.len() - 1,
    ensures
        (Single { bits: LARGE_GAP }).lt(gaps(tops)[e].over(median(gaps(tops)))) <==> too_far(
            rows,
            e,
        ),
{
    lemma_gaps(tops, rows);
    let med = lemma_median_distance(tops, rows);
    let a = distance(rows, e);
    let n = rows.len() - 1;
    assert(gaps(tops)[e] == whole(distance(rows, e)));
    lemma_ratio_large(a, med);
    // The least whole number that is not below five eighths of it.
    let d = (5 * a + 7) / 8;
    let holds = |i: int| 8 * distance(rows, i) < 5 * distance(rows, e);
    let at = |i: int| distance(rows, i) >= d;
    assert forall|i: int| 0 <= i < n implies (#[trigger] holds(i) <==> !at(i)) by {}
    lemma_count_split(n, holds, at);
    assert(0 <= d < ROWS);
    assert(is_row(d));
    assert(med >= d <==> 2 * count(n, at) >= n);
}

/// What is asked of staves before their ends are looked at: there are more
/// than make whole systems, and no two of them are too close.
pub open spec fn spread_out(tops: Seq<Single>, rows: Seq<int>, conv: Seq<Single>, g: int) -> bool {
    &&& stand_on(tops, rows)
    &&& answers(conv, rows)
    &&& conv.len() <= usize::MAX
    &&& forall|i: int| 0 <= i < conv.len() ==> !(#[trigger] conv[i]).negative()
    &&& rows.len() > 4
    &&& rows.len() % 4 != 0
    &&& closest(rows, g)
    &&& !too_close(rows, g)
}

/// Where no two staves are too close, a weak one at an end goes: the first,
/// if it is too weak and not stronger than the last, or else the last, if
/// that is too weak.
pub proof fn lemma_weak_end_goes(tops: Seq<Single>, rows: Seq<int>, conv: Seq<Single>, g: int)
    requires
        spread_out(tops, rows, conv, g),
    ensures
        ({
            let last = rows.len() - 1;
            &&& too_weak(conv, rows, 0) && strength(conv, rows, 0) <= strength(conv, rows, last)
                ==> pruned(tops, conv) == pruned(tops.remove(0), conv)
            &&& too_weak(conv, rows, last) && strength(conv, rows, last) < strength(conv, rows, 0)
                ==> pruned(tops, conv) == pruned(tops.remove(last), conv)
        }),
{
    let last = rows.len() - 1;
    lemma_gaps(tops, rows);
    lemma_closest(tops, rows, g);
    lemma_too_close(tops, rows, g);
    lemma_scores(tops, rows, conv);
    lemma_weakness(tops, rows, conv, 0);
    lemma_weakness(tops, rows, conv, last);
    assert(scores(conv, tops)[0] == conv[rows[0]]);
    assert(scores(conv, tops)[last] == conv[rows[last]]);
    lemma_order_is_by_value(conv[rows[0]], conv[rows[last]]);
    assert(outlier(tops, conv) == remote(tops, conv));
}

/// Where no two staves are too close and neither end is weak, one that
/// stands far off at an end goes: the first, if it is too far from the next
/// and not nearer than the last is to the one before, or else the last, if
/// that is too far off. If neither is, all staves stay.
pub proof fn lemma_remote_end_goes(tops: Seq<Single>, rows: Seq<int>, conv: Seq<Single>, g: int)
    requires
        spread_out(tops, rows, conv, g),
        not_weak(conv, rows, 0),
        not_weak(conv, rows, rows.len() - 1),
    ensures
        ({
            let last = rows.len() - 1;
            let front = too_far(rows, 0) && distance(rows, last - 1) <= distance(rows, 0);
            &&& front ==> pruned(tops, conv) == pruned(tops.remove(0), conv)
            &&& !front && too_far(rows, last - 1) ==> pruned(tops, conv) == pruned(
                tops.remove(last),
                conv,
            )
            &&& !too_far(rows, 0) && !too_far(rows, last - 1) ==> pruned(tops, conv) == tops
        }),
{
    let last = rows.len() - 1;
    lemma_gaps(tops, rows);
    lemma_closest(tops, rows, g);
    lemma_too_close(tops, rows, g);
    lemma_scores(tops, rows, conv);
    lemma_weakness(tops, rows, conv, 0);
    lemma_weakness(tops, rows, conv, last);
    lemma_far(tops, rows, 0);
    lemma_far(tops, rows, last - 1);
    assert(scores(conv, tops)[0] == conv[rows[0]]);
    assert(scores(conv, tops)[last] == conv[rows[last]]);
    assert(gaps(tops)[0] == whole(distance(rows, 0)));
    assert(gaps(tops)[last - 1] == whole(distance(rows, last - 1)));
    lemma_whole_exact(distance(rows, 0));
    lemma_whole_exact(distance(rows, last - 1));
    lemma_whole_ranks(distance(rows, last - 1), distance(rows, 0));
    assert(outlier(tops, conv) == remote(tops, conv));
}

/// Whole systems are left as they are, and so are few staves.
pub proof fn lemma_whole_systems_stay(tops: Seq<Single>, conv: Seq<Single>)
    requires
        tops.len() <= 4 || tops.len() % 4 == 0,
    ensures
        pruned(tops, conv) == tops,
{
}

} // verus!
