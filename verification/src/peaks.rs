//! Which staves are found: those whose lines stand out of the page.
use crate::bounds::{
    lemma_order_is_by_value, lemma_power, lemma_sum_nonneg, lemma_whole_exact, nonneg, power,
};
use crate::detect::{detected, lemma_usable, staff_span, stave_tops, usable, PageBands, STAFF_REACH};
use crate::feasible::{has_ink, lemma_filter_of_inked_page};
use crate::image::GrayImage;
use crate::monotone::lemma_units_nonneg;
use crate::order::{all_numbers, is_last_max, last_max, lemma_sorted, sorted, sum};
use crate::placing::{lemma_row_of_whole, lemma_span, lemma_staves_are_apart, row_of, MOST_ROWS};
use crate::pruning::lemma_pruned_is_a_selection;
use crate::rounding::{
    lemma_nearest_ge, lemma_nearest_le, lemma_nearest_rounds, lemma_units_at, lemma_units_mono,
    nearest, units, MAG_INF,
};
use crate::signal::{levels, TWO};
use crate::single::{one_units, whole, Single};
use crate::staves::{
    above_zero, combed, lemma_peaks_apart, lemma_peaks_near, peak_threshold, peaks, peaks_end,
    peaks_of, tap,
};
use crate::sums::{even_grained, lemma_sum_is_exact, total};
use vstd::arithmetic::div_mod::*;
use vstd::arithmetic::power2::*;
use vstd::prelude::*;

verus! {

/// A response of the comb filter that can be worked with: it has a finite
/// sum, and nothing in it is below zero.
pub open spec fn workable(conv: Seq<Single>) -> bool {
    &&& 0 < conv.len() <= MOST_ROWS
    &&& forall|i: int| 0 <= i < conv.len() ==> nonneg(#[trigger] conv[i]) && conv[i].finite()
    &&& sum(conv).finite()
}

/// Twice a number has a pattern of its own.
proof fn lemma_double_pattern(m: int) -> (d: int)
    requires
        m >= 0,
    ensures
        d >= 0,
        m == 0 ==> d == 0,
        units(d) == 2 * units(m),
{
    lemma2_to64();
    if m < 0x80_0000 {
        lemma_units_at(0, 2 * m);
        lemma_units_at(0, m);
        2 * m
    } else {
        let t = m + 0x80_0000;
        assert(t % 0x80_0000 == m % 0x80_0000);
        assert(t / 0x80_0000 == m / 0x80_0000 + 1);
        let e = (m / 0x80_0000 - 1) as nat;
        lemma_pow2_unfold(e + 1);
        let f = 0x80_0000 + m % 0x80_0000;
        assert(f * (2 * pow2(e)) == 2 * (f * pow2(e))) by (nonlinear_arith);
        t
    }
}

/// The threshold is at least twice every number that is not above the mean,
/// and at most twice every number that is not below it.
proof fn lemma_threshold(conv: Seq<Single>, m: Single)
    requires
        workable(conv),
        m.finite(),
        !m.negative(),
    ensures
        m.value() * conv.len() <= sum(conv).value() ==> !peak_threshold(conv).nan()
            && peak_threshold(conv).rank() >= 0 && (peak_threshold(conv).finite() ==> 2 * m.value()
            <= peak_threshold(conv).value()),
        m.value() * conv.len() >= sum(conv).value() ==> forall|x: Single|
            (#[trigger] x.finite()) && !x.negative() && 2 * m.value() <= x.value() ==> !x.lt(
                peak_threshold(conv),
            ),
{
    let n = conv.len() as int;
    let one = one_units();
    let s = sum(conv);
    let two = Single { bits: TWO };
    lemma_pow2_pos(149);
    lemma_power(1);
    lemma_pow2_adds(1, 149);
    lemma2_to64();
    assert(two.mag() == power(1));
    lemma_whole_exact(n);
    lemma_sum_nonneg(conv);
    lemma_units_nonneg(s.mag());
    lemma_units_nonneg(m.mag());
    let ws = units(s.mag());
    let d = n * one;
    assert(d > 0) by (nonlinear_arith)
        requires
            n > 0,
            one > 0,
            d == n * one,
    ;
    assert(ws * one >= 0) by (nonlinear_arith)
        requires
            ws >= 0,
            one > 0,
    ;
    let mean = s.over(whole(n));
    lemma_nearest_rounds(ws * one, d);
    let p = nearest(ws * one, d);
    let um = units(m.mag());
    assert(s.negative() ==> s.mag() == 0);
    if s.mag() == 0 {
        lemma_units_at(0, 0);
        assert(ws == 0);
        assert(0 * one == 0);
        assert(units(0) * d == 0) by (nonlinear_arith)
            requires
                units(0) == 0,
        ;
        lemma_nearest_le(0, 0, d);
        if um * n <= ws {
            assert(um == 0) by (nonlinear_arith)
                requires
                    um * n <= 0,
                    um >= 0,
                    n > 0,
            ;
        }
    }
    let q = lemma_double_pattern(p);
    let dm = lemma_double_pattern(m.mag());
    if um * n <= ws {
        assert(um * d <= ws * one) by (nonlinear_arith)
            requires
                um * n <= ws,
                one > 0,
                d == n * one,
        ;
        lemma_nearest_ge(m.mag(), ws * one, d);
        if m.mag() < p {
            lemma_units_mono(m.mag(), p);
        }
    }
    if um * n >= ws {
        assert(ws * one <= um * d) by (nonlinear_arith)
            requires
                um * n >= ws,
                one > 0,
                d == n * one,
        ;
        lemma_nearest_le(m.mag(), ws * one, d);
        if p < m.mag() {
            lemma_units_mono(p, m.mag());
        }
    }
    let t = mean.times(two);
    if p < MAG_INF {
        assert(mean.mag() == p);
        let up = units(p);
        assert(up * (2 * one) == (2 * up) * one) by (nonlinear_arith);
        assert(units(q) * one == up * units(two.mag()));
        lemma_units_nonneg(p);
        assert(up * (2 * one) >= 0) by (nonlinear_arith)
            requires
                up >= 0,
                one > 0,
        ;
        lemma_nearest_ge(q, up * units(two.mag()), one);
        lemma_nearest_le(q, up * units(two.mag()), one);
        assert(t.mag() == if q > MAG_INF { MAG_INF as int } else { q });
    } else {
        assert(mean.mag() == MAG_INF);
    }
    assert(t.negative() ==> t.mag() == 0);
    if um * n >= ws {
        assert forall|x: Single|
            (#[trigger] x.finite()) && !x.negative() && 2 * m.value() <= x.value() implies !x.lt(
            t,
        ) by {
            if x.mag() < q {
                lemma_units_mono(x.mag(), q);
            }
        }
    }
}

/// What a list of rows holds is what it was sorted from.
proof fn lemma_rows_of(found: Seq<int>, k: int) -> (a: int)
    requires
        forall|i: int| 0 <= i < found.len() ==> 0 <= #[trigger] found[i] < MOST_ROWS,
        0 <= k < sorted(found.map_values(|i: int| whole(i))).len(),
    ensures
        0 <= a < found.len(),
        sorted(found.map_values(|i: int| whole(i)))[k] == whole(found[a]),
{
    let list = found.map_values(|i: int| whole(i));
    let s = sorted(list);
    assert forall|i: int| 0 <= i < list.len() implies !(#[trigger] list[i]).nan() by {
        assert(0 <= found[i] < MOST_ROWS);
        lemma_whole_exact(found[i]);
    }
    lemma_sorted(list);
    broadcast use vstd::seq_lib::group_to_multiset_ensures;

    assert(s.to_multiset().contains(s[k]));
    assert(list.to_multiset().contains(s[k]));
    assert(list.contains(s[k]));
    choose|a: int| 0 <= a < list.len() && list[a] == s[k]
}

proof fn lemma_row_listed(found: Seq<int>, a: int) -> (k: int)
    requires
        forall|i: int| 0 <= i < found.len() ==> 0 <= #[trigger] found[i] < MOST_ROWS,
        0 <= a < found.len(),
    ensures
        0 <= k < sorted(found.map_values(|i: int| whole(i))).len(),
        sorted(found.map_values(|i: int| whole(i)))[k] == whole(found[a]),
{
    let list = found.map_values(|i: int| whole(i));
    let s = sorted(list);
    assert forall|i: int| 0 <= i < list.len() implies !(#[trigger] list[i]).nan() by {
        assert(0 <= found[i] < MOST_ROWS);
        lemma_whole_exact(found[i]);
    }
    lemma_sorted(list);
    broadcast use vstd::seq_lib::group_to_multiset_ensures;

    let x = whole(found[a]);
    assert(list[a] == x);
    assert(list.to_multiset().contains(x));
    assert(s.to_multiset().contains(x));
    assert(s.contains(x));
    choose|k: int| 0 <= k < s.len() && s[k] == x
}

/// A peak stands out: the response at its row is at least twice any number
/// `m` that is not above the mean response. The list of peaks is that of
/// `non_max_suppress`.
pub proof fn lemma_peaks_stand_out(
    conv: Seq<Single>,
    radius: Single,
    found: Seq<Single>,
    m: Single,
    k: int,
) -> (p: int)
    requires
        workable(conv),
        peaks_end(conv, radius.nearest_whole(usize::MAX as int)),
        found == sorted(peaks_of(conv, radius).map_values(|i: int| whole(i))),
        m.finite(),
        m.value() * conv.len() <= sum(conv).value(),
        0 <= k < found.len(),
    ensures
        0 <= p < conv.len(),
        found[k] == whole(p),
        conv[p].value() >= 2 * m.value(),
{
    let r = radius.nearest_whole(usize::MAX as int);
    let t = peak_threshold(conv);
    let places = peaks_of(conv, radius);
    assert(all_numbers(conv));
    if conv[last_max(conv)].lt(t) {
        assert(places =~= Seq::<int>::empty());
        assert(found.len() == 0);
    }
    lemma_peaks_apart(conv, r, t, conv.len());
    assert forall|i: int| 0 <= i < places.len() implies 0 <= #[trigger] places[i] < MOST_ROWS by {
        assert(0 <= places[i] < conv.len());
    }
    let a = lemma_rows_of(places, k);
    let p = places[a];
    assert(0 <= places[a] < conv.len() && !conv[places[a]].lt(t));
    lemma_units_nonneg(conv[p].mag());
    lemma_units_nonneg(m.mag());
    assert(nonneg(conv[p]) && conv[p].finite());
    if !m.negative() {
        lemma_threshold(conv, m);
        assert(t.rank() <= conv[p].rank());
        assert(t.finite());
        if t.mag() < conv[p].mag() {
            lemma_units_mono(t.mag(), conv[p].mag());
        }
    }
    p
}

/// Where no response reaches twice the mean, there are no peaks.
pub proof fn lemma_quiet_signal_has_no_peaks(
    conv: Seq<Single>,
    radius: Single,
    found: Seq<Single>,
    m: Single,
)
    requires
        workable(conv),
        peaks_end(conv, radius.nearest_whole(usize::MAX as int)),
        found == sorted(peaks_of(conv, radius).map_values(|i: int| whole(i))),
        m.finite(),
        m.value() * conv.len() <= sum(conv).value(),
        forall|i: int| 0 <= i < conv.len() ==> (#[trigger] conv[i]).value() < 2 * m.value(),
    ensures
        found.len() == 0,
{
    if found.len() > 0 {
        let p = lemma_peaks_stand_out(conv, radius, found, m, 0);
        assert(conv[p].value() < 2 * m.value());
    }
}

/// The same where sums are exact: a peak has at least twice the mean of all
/// responses, `total(conv)` over their number.
pub proof fn lemma_peaks_have_twice_the_mean(
    conv: Seq<Single>,
    radius: Single,
    found: Seq<Single>,
    u: nat,
    m: Single,
    k: int,
) -> (p: int)
    requires
        workable(conv),
        peaks_end(conv, radius.nearest_whole(usize::MAX as int)),
        found == sorted(peaks_of(conv, radius).map_values(|i: int| whole(i))),
        even_grained(conv, u),
        total(conv) <= 0x100_0000 * pow2(u),
        u <= 200,
        m.finite(),
        m.value() * conv.len() <= total(conv),
        0 <= k < found.len(),
    ensures
        0 <= p < conv.len(),
        found[k] == whole(p),
        conv[p].value() >= 2 * m.value(),
{
    lemma_sum_is_exact(conv, u);
    lemma_peaks_stand_out(conv, radius, found, m, k)
}

/// The radius in whole rows.
proof fn lemma_radius_rows(radius: Single)
    requires
        radius.finite(),
        !radius.negative(),
        radius.value() <= 0x100_0000 * one_units(),
    ensures
        ({
            let r = radius.nearest_whole(usize::MAX as int);
            &&& 2 * (r * one_units()) <= 2 * radius.value() + one_units()
            &&& 2 * (r * one_units()) > 2 * radius.value() - one_units()
            &&& r >= 0
        }),
{
    let one = one_units();
    lemma_pow2_pos(149);
    lemma_units_nonneg(radius.mag());
    let u = units(radius.mag());
    let a = 2 * u + one;
    let d = 2 * one;
    let q = a / d;
    lemma_fundamental_div_mod(a, d);
    lemma_mod_bound(a, d);
    assert(0 <= q <= 0x100_0000) by (nonlinear_arith)
        requires
            a == d * q + a % d,
            0 <= a % d < d,
            a == 2 * u + one,
            d == 2 * one,
            0 <= u <= 0x100_0000 * one,
            one > 0,
    ;
    assert(d * q == 2 * (q * one)) by (nonlinear_arith)
        requires
            d == 2 * one,
    ;
}

/// Nothing that stands out is missed: a row whose response is at least twice
/// a number `m` that is not below the mean lies within the radius of a peak
/// that is at least as strong.
pub proof fn lemma_nothing_loud_is_missed(
    conv: Seq<Single>,
    radius: Single,
    found: Seq<Single>,
    m: Single,
    j: int,
) -> (res: (int, int))
    requires
        workable(conv),
        radius.finite(),
        !radius.negative(),
        one_units() <= radius.value() <= 0x100_0000 * one_units(),
        above_zero(peak_threshold(conv)),
        found == sorted(peaks_of(conv, radius).map_values(|i: int| whole(i))),
        m.finite(),
        !m.negative(),
        m.value() * conv.len() >= sum(conv).value(),
        0 <= j < conv.len(),
        conv[j].value() >= 2 * m.value(),
    ensures
        ({
            let (k, p) = res;
            &&& 0 <= k < found.len()
            &&& 0 <= p < conv.len()
            &&& found[k] == whole(p)
            &&& conv[j].value() <= conv[p].value()
            &&& 2 * ((p - j) * one_units()) <= 2 * radius.value() + one_units()
            &&& 2 * ((j - p) * one_units()) <= 2 * radius.value() + one_units()
        }),
{
    let r = radius.nearest_whole(usize::MAX as int);
    let t = peak_threshold(conv);
    let one = one_units();
    let places = peaks_of(conv, radius);
    lemma_pow2_pos(149);
    lemma_radius_rows(radius);
    assert(r >= 1) by (nonlinear_arith)
        requires
            2 * (r * one) > 2 * radius.value() - one,
            radius.value() >= one,
            one > 0,
    ;
    assert(all_numbers(conv));
    lemma_threshold(conv, m);
    assert(nonneg(conv[j]) && conv[j].finite());
    lemma_units_nonneg(conv[j].mag());
    lemma_units_at(0, 0);
    lemma2_to64();
    if conv[j].negative() {
        // Negative zero ranks as zero does.
        let z = Single { bits: 0 };
        assert(conv[j].mag() == 0);
        assert(z.finite());
        assert(!z.lt(t));
    } else {
        assert(conv[j].finite());
        assert(!conv[j].lt(t));
    }
    let a = lemma_peaks_near(conv, r, t, conv.len(), j);
    lemma_peaks_apart(conv, r, t, conv.len());
    assert forall|i: int| 0 <= i < places.len() implies 0 <= #[trigger] places[i] < MOST_ROWS by {
        assert(0 <= places[i] < conv.len());
    }
    let k = lemma_row_listed(places, a);
    let p = places[a];
    assert(nonneg(conv[p]) && conv[p].finite());
    lemma_units_nonneg(conv[p].mag());
    if conv[j].mag() < conv[p].mag() {
        lemma_units_mono(conv[j].mag(), conv[p].mag());
    }
    assert((p - j) * one <= r * one && (j - p) * one <= r * one) by (nonlinear_arith)
        requires
            p - j <= r,
            j - p <= r,
            one > 0,
    ;
    (k, p)
}

/// Peaks come in order down the page, and two of them are a radius apart,
/// to half a row.
pub proof fn lemma_peaks_keep_apart(
    conv: Seq<Single>,
    radius: Single,
    found: Seq<Single>,
    k: int,
    l: int,
)
    requires
        workable(conv),
        radius.finite(),
        !radius.negative(),
        one_units() <= radius.value() <= 0x100_0000 * one_units(),
        above_zero(peak_threshold(conv)),
        found == sorted(peaks_of(conv, radius).map_values(|i: int| whole(i))),
        0 <= k < l < found.len(),
    ensures
        2 * (found[l].value() - found[k].value()) >= 2 * radius.value() - one_units(),
{
    let r = radius.nearest_whole(usize::MAX as int);
    let t = peak_threshold(conv);
    let one = one_units();
    let places = peaks_of(conv, radius);
    let list = places.map_values(|i: int| whole(i));
    lemma_pow2_pos(149);
    lemma_radius_rows(radius);
    assert(r >= 1) by (nonlinear_arith)
        requires
            2 * (r * one) > 2 * radius.value() - one,
            radius.value() >= one,
            one > 0,
    ;
    assert(all_numbers(conv));
    lemma_peaks_apart(conv, r, t, conv.len());
    assert forall|i: int| 0 <= i < places.len() implies 0 <= #[trigger] places[i] < MOST_ROWS by {
        assert(0 <= places[i] < conv.len());
    }
    assert forall|i: int| 0 <= i < list.len() implies !(#[trigger] list[i]).nan() by {
        assert(0 <= places[i] < MOST_ROWS);
        lemma_whole_exact(places[i]);
    }
    assert forall|a: int, b: int|
        0 <= a < list.len() && 0 <= b < list.len() && a != b implies list[a] != list[b] by {
        assert(0 <= places[a] < conv.len());
        assert(0 <= places[b] < conv.len());
        if a < b {
            assert(places[a] + r <= places[b] || places[b] + r <= places[a]);
        } else {
            assert(places[b] + r <= places[a] || places[a] + r <= places[b]);
        }
        lemma_row_of_whole(places[a]);
        lemma_row_of_whole(places[b]);
    }
    assert(list.no_duplicates());
    lemma_sorted(list);
    list.lemma_multiset_has_no_duplicates();
    found.lemma_multiset_has_no_duplicates_conv();
    let a = lemma_rows_of(places, k);
    let b = lemma_rows_of(places, l);
    assert(found[k] != found[l]);
    let p = places[a];
    let q = places[b];
    assert(0 <= places[a] < MOST_ROWS && 0 <= places[b] < MOST_ROWS);
    lemma_whole_exact(p);
    lemma_whole_exact(q);
    assert(found[k].rank() <= found[l].rank());
    lemma_order_is_by_value(found[k], found[l]);
    if a < b {
        assert(p + r <= q || q + r <= p);
    } else {
        assert(a != b);
        assert(q + r <= p || p + r <= q);
    }
    if q + r <= p {
        assert(q * one < p * one) by (nonlinear_arith)
            requires
                q + r <= p,
                r >= 1,
                one > 0,
        ;
    }
    assert(p * one + r * one <= q * one) by (nonlinear_arith)
        requires
            p + r <= q,
            one > 0,
    ;
}

/// A response of the signal at a place, nothing past its end.
pub open spec fn heard(signal: Seq<Single>, i: int) -> int {
    if i < signal.len() {
        signal[i].value()
    } else {
        0
    }
}

/// The comb filter adds up the darkness of five lines, each `s` rows below
/// the one before, where `s` is the whole number nearest to the distance
/// between lines.
pub proof fn lemma_comb_adds_five_lines(
    signal: Seq<Single>,
    spacing: Single,
    s: int,
    u: nat,
    i: int,
)
    requires
        even_grained(signal, u),
        u <= 200,
        usable(spacing),
        2 * (s * one_units()) < 2 * spacing.value() + one_units(),
        2 * spacing.value() - one_units() < 2 * (s * one_units()),
        0 <= i < signal.len(),
        heard(signal, i) + heard(signal, i + s) + heard(signal, i + 2 * s) + heard(
            signal,
            i + 3 * s,
        ) + heard(signal, i + 4 * s) <= 0x100_0000 * pow2(u),
    ensures
        combed(signal, spacing).len() == signal.len(),
        combed(signal, spacing)[i].value() == heard(signal, i) + heard(signal, i + s) + heard(
            signal,
            i + 2 * s,
        ) + heard(signal, i + 3 * s) + heard(signal, i + 4 * s),
{
    let one = one_units();
    lemma_pow2_pos(149);
    lemma_usable(spacing);
    lemma_power(7);
    lemma_pow2_adds(7, 149);
    lemma2_to64();
    lemma_units_nonneg(spacing.mag());
    if spacing.mag() < power(7) {
        lemma_units_mono(spacing.mag(), power(7));
    }
    lemma_radius_rows(spacing);
    let r = spacing.nearest_whole(usize::MAX as int);
    assert(r == s) by (nonlinear_arith)
        requires
            2 * (r * one) <= 2 * spacing.value() + one,
            2 * (r * one) > 2 * spacing.value() - one,
            2 * (s * one) < 2 * spacing.value() + one,
            2 * (s * one) > 2 * spacing.value() - one,
            one > 0,
    ;
    let taps = seq![
        tap(signal, i),
        tap(signal, i + s),
        tap(signal, i + 2 * s),
        tap(signal, i + 3 * s),
        tap(signal, i + 4 * s),
    ];
    lemma_units_at(0, 0);
    lemma_pow2_pos(u);
    lemma_small_mod(0, pow2(u));
    assert forall|j: int| 0 <= j < taps.len() implies (#[trigger] taps[j]).finite()
        && !taps[j].negative() && taps[j].value() % (pow2(u) as int) == 0 by {
        let at = i + j * s;
        assert(taps[j] == tap(signal, at)) by {
            if j == 0 {
                assert(0 * s == 0);
            } else if j == 1 {
                assert(1 * s == s);
            }
        }
        assert(at >= 0) by (nonlinear_arith)
            requires
                at == i + j * s,
                i >= 0,
                j >= 0,
                s >= 0,
        ;
        if at < signal.len() {
            assert(signal[at].finite());
        }
    }
    let t4 = taps.drop_last();
    let t3 = t4.drop_last();
    let t2 = t3.drop_last();
    let t1 = t2.drop_last();
    let t0 = t1.drop_last();
    assert(t0.len() == 0);
    assert(total(t0) == 0);
    assert(total(t1) == heard(signal, i));
    assert(total(t2) == total(t1) + heard(signal, i + s));
    assert(total(t3) == total(t2) + heard(signal, i + 2 * s));
    assert(total(t4) == total(t3) + heard(signal, i + 3 * s));
    assert(total(taps) == total(t4) + heard(signal, i + 4 * s));
    lemma_sum_is_exact(taps, u);
}

/// A page on which no row stands out is a full page: where the response of
/// the comb filter stays below twice its mean, there are no systems.
pub proof fn lemma_page_without_staves_is_full(
    bands: &PageBands,
    img: &GrayImage,
    spacing: Single,
    height: Single,
    dpi: u32,
    padding: Single,
    m: Single,
)
    requires
        img.wf(),
        usable(spacing),
        workable(combed(levels(img), spacing)),
        m.finite(),
        m.value() * img.height <= sum(combed(levels(img), spacing)).value(),
        forall|i: int|
            0 <= i < img.height ==> (#[trigger] combed(levels(img), spacing)[i]).value() < 2
                * m.value(),
        detected(bands, img, Some(spacing), height, dpi, padding),
    ensures
        *bands is FullPage,
{
    if has_ink(img) {
        let conv = combed(levels(img), spacing);
        let radius = staff_span(spacing).times(Single { bits: STAFF_REACH });
        let places = peaks_of(conv, radius);
        let found = sorted(places.map_values(|i: int| whole(i)));
        lemma_usable(spacing);
        lemma_filter_of_inked_page(img, spacing);
        lemma_quiet_signal_has_no_peaks(conv, radius, found, m);
        let kept = lemma_pruned_is_a_selection(found, conv);
        if kept.len() > 0 {
            assert(0 <= kept[0] < found.len());
        }
    }
}

/// Every strip belongs to a staff that stands out: there are four staves to
/// a system, and the response at the top of each is at least twice a number
/// that is not above the mean.
pub proof fn lemma_systems_stand_out(
    bands: &PageBands,
    img: &GrayImage,
    spacing: Single,
    height: Single,
    dpi: u32,
    padding: Single,
    m: Single,
) -> (rows: Seq<int>)
    requires
        img.wf(),
        usable(spacing),
        workable(combed(levels(img), spacing)),
        m.finite(),
        m.value() * img.height <= sum(combed(levels(img), spacing)).value(),
        detected(bands, img, Some(spacing), height, dpi, padding),
        *bands is Systems,
    ensures
        bands->systems@.len() > 0,
        rows.len() == 4 * bands->systems@.len(),
        forall|k: int|
            0 <= k < rows.len() ==> 0 <= #[trigger] rows[k] < img.height && combed(
                levels(img),
                spacing,
            )[rows[k]].value() >= 2 * m.value(),
        forall|k: int, l: int| 0 <= k < l < rows.len() ==> #[trigger] rows[k] < #[trigger] rows[l],
{
    let conv = combed(levels(img), spacing);
    let radius = staff_span(spacing).times(Single { bits: STAFF_REACH });
    let places = peaks_of(conv, radius);
    let found = sorted(places.map_values(|i: int| whole(i)));
    lemma_usable(spacing);
    lemma_filter_of_inked_page(img, spacing);
    let kept = lemma_pruned_is_a_selection(found, conv);
    let all = stave_tops(img, spacing);
    let n = 4 * bands->systems@.len();
    lemma_staves_are_apart(img, spacing);
    lemma_span(spacing);
    let rows = Seq::new(n, |k: int| row_of(all[k]));
    assert forall|k: int| 0 <= k < rows.len() implies 0 <= #[trigger] rows[k] < img.height && conv[
        rows[k]
    ].value() >= 2 * m.value() by {
        assert(all[k] == found[kept[k]]);
        let p = lemma_peaks_stand_out(conv, radius, found, m, kept[k]);
        lemma_row_of_whole(p);
    }
    assert forall|k: int, l: int| 0 <= k < l < rows.len() implies #[trigger] rows[k]
        < #[trigger] rows[l] by {
        let one = one_units();
        lemma_pow2_pos(149);
        let a = row_of(all[k]);
        let b = row_of(all[l]);
        assert(all[k].value() + staff_span(spacing).value() <= all[l].value());
        assert(all[k] == whole(a) && all[l] == whole(b));
        lemma_whole_exact(a);
        lemma_whole_exact(b);
        assert(a < b) by (nonlinear_arith)
            requires
                a * one + 4 * one <= b * one,
                one > 0,
        ;
    }
    rows
}

/// Where there are peaks at all, the loudest row is one of them; of several
/// that are equally loud, the last.
pub proof fn lemma_loudest_row_is_a_peak(
    conv: Seq<Single>,
    radius: Single,
    found: Seq<Single>,
    m: int,
) -> (k: int)
    requires
        workable(conv),
        peaks_end(conv, radius.nearest_whole(usize::MAX as int)),
        found == sorted(peaks_of(conv, radius).map_values(|i: int| whole(i))),
        found.len() > 0,
        0 <= m < conv.len(),
        forall|j: int| 0 <= j < conv.len() ==> (#[trigger] conv[j]).value() <= conv[m].value(),
        forall|j: int| m < j < conv.len() ==> (#[trigger] conv[j]).value() < conv[m].value(),
    ensures
        0 <= k < found.len(),
        found[k] == whole(m),
{
    let places = peaks_of(conv, radius);
    assert forall|j: int| 0 <= j < conv.len() implies (#[trigger] conv[j]).rank()
        <= conv[m].rank() by {
        assert(conv[j].finite() && conv[m].finite());
        lemma_order_is_by_value(conv[j], conv[m]);
    }
    assert forall|j: int| m < j < conv.len() implies (#[trigger] conv[j]).rank()
        < conv[m].rank() by {
        assert(conv[j].finite() && conv[m].finite());
        lemma_order_is_by_value(conv[j], conv[m]);
    }
    assert(is_last_max(conv, m));
    let i = last_max(conv);
    assert(is_last_max(conv, i));
    assert(i == m) by {
        if i < m {
            assert(conv[m].rank() < conv[i].rank());
        }
        if m < i {
            assert(conv[i].rank() < conv[m].rank());
        }
    }
    let r = radius.nearest_whole(usize::MAX as int);
    let t = peak_threshold(conv);
    assert(all_numbers(conv));
    if conv[last_max(conv)].lt(t) {
        assert(places =~= Seq::<int>::empty());
        assert(found.len() == 0);
    }
    lemma_peaks_apart(conv, r, t, conv.len());
    assert forall|n: int| 0 <= n < places.len() implies 0 <= #[trigger] places[n] < MOST_ROWS by {
        assert(0 <= places[n] < conv.len());
    }
    assert(places[0] == m);
    lemma_row_listed(places, 0)
}

} // verus!
