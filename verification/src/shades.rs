//! The darkness of rows, and the distance between staff lines, in numbers.
use crate::bounds::{
    lemma_nearest_zero, lemma_nonneg_value, lemma_order_is_by_value, lemma_power, lemma_whole_exact,
    nonneg, power,
};
use crate::fitting::lemma_whole_difference;
use crate::image::GrayImage;
use crate::monotone::lemma_units_nonneg;
use crate::order::sum;
use crate::rounding::{
    lemma_nearest_le, lemma_nearest_rounds, lemma_units_at, lemma_units_at_least, lemma_units_mono,
    nearest, units, MAG_INF,
};
use crate::signal::{
    darkness, highest_bin, levels, lowest_bin, row_darkness, row_level, sample_left, sample_right,
    spacing_of, strongest, HARMONIC, THREE, TWO, WHITE, WIDEST_SPACING,
};
use crate::single::{one_units, whole, Single};
use crate::sums::{
    even_grained, lemma_rounding_is_relative, lemma_rounding_is_small, lemma_sum_is_exact, speck,
    total,
};
use vstd::arithmetic::power2::*;
use vstd::prelude::*;

verus! {

/// How much darker than white the pixels of a row are together, from column
/// `x0` up to column `x1`.
pub open spec fn shade(img: &GrayImage, y: int, x0: int, x1: int) -> int
    decreases x1 - x0,
{
    if x1 <= x0 {
        0
    } else {
        shade(img, y, x0, x1 - 1) + (255 - img.pixel(x1 - 1, y))
    }
}

proof fn lemma_shade_range(img: &GrayImage, y: int, x0: int, x1: int)
    requires
        x0 <= x1,
    ensures
        0 <= shade(img, y, x0, x1) <= 255 * (x1 - x0),
    decreases x1 - x0,
{
    if x0 < x1 {
        lemma_shade_range(img, y, x0, x1 - 1);
    }
}

/// White is not dark, black is 255, and every shade lies between.
proof fn lemma_darkness(p: u8)
    ensures
        darkness(p).finite(),
        !darkness(p).negative(),
        darkness(p).value() == (255 - p) * one_units(),
{
    lemma_pow2_pos(149);
    lemma_units_at(133, 0xff_0000);
    lemma2_to64();
    lemma_pow2_adds(133, 16);
    lemma_units_at(0, 0);
    lemma_whole_exact(p as int);
    if p < 255 {
        lemma_whole_difference(Single { bits: WHITE }, whole(p as int), 255, p as int);
        lemma_whole_exact(255 - p);
    } else {
        assert(whole(255).neg().mag() == whole(255).mag());
        assert(whole(255).neg().value() == -(255 * one_units()));
        assert((255 - p) * one_units() == 0) by (nonlinear_arith)
            requires
                p == 255,
        ;
    }
}

proof fn lemma_row_total(img: &GrayImage, y: int, k: int)
    requires
        0 <= k <= sample_right(img) - sample_left(img),
    ensures
        total(row_darkness(img, y).take(k)) == shade(
            img,
            y,
            sample_left(img),
            sample_left(img) + k,
        ) * one_units(),
    decreases k,
{
    let row = row_darkness(img, y);
    let x0 = sample_left(img);
    let one = one_units();
    if k > 0 {
        lemma_row_total(img, y, k - 1);
        assert(row.take(k).drop_last() =~= row.take(k - 1));
        let p = img.pixel(x0 + k - 1, y);
        lemma_darkness(p);
        assert(row.take(k).last() == darkness(p));
        let a = shade(img, y, x0, x0 + k - 1);
        assert((a + (255 - p)) * one == a * one + (255 - p) * one) by (nonlinear_arith);
    } else {
        assert(0 * one == 0);
    }
}

/// The signal of a row is the mean darkness of its pixels in the middle
/// three fifths of the page: what is left and right of them does not
/// matter. It is rounded by little.
pub proof fn lemma_levels_are_means(img: &GrayImage, y: int)
    requires
        img.wf(),
        0 <= y < img.height,
        0 < img.width <= 0x1_0000,
        img.width as int / 5 < img.width * 4 / 5,
    ensures
        ({
            let x0 = img.width as int / 5;
            let x1 = img.width * 4 / 5;
            let level = levels(img)[y];
            &&& level.finite()
            &&& !level.negative()
            &&& -speck() * (x1 - x0) <= level.value() * (x1 - x0) - shade(img, y, x0, x1)
                * one_units() <= speck() * (x1 - x0)
        }),
{
    let one = one_units();
    let x0 = sample_left(img);
    let x1 = sample_right(img);
    let n = x1 - x0;
    let row = row_darkness(img, y);
    let t = shade(img, y, x0, x1);
    lemma_pow2_pos(149);
    lemma_shade_range(img, y, x0, x1);
    lemma_row_total(img, y, n);
    assert(row.take(n) =~= row);
    assert(even_grained(row, 149)) by {
        assert forall|i: int| 0 <= i < row.len() implies (#[trigger] row[i]).finite()
            && !row[i].negative() && row[i].value() % (pow2(149) as int) == 0 by {
            let p = img.pixel(x0 + i, y);
            lemma_darkness(p);
            vstd::arithmetic::div_mod::lemma_mod_multiples_basic(255 - p, one);
        }
    }
    assert(t * one <= 0x100_0000 * one) by (nonlinear_arith)
        requires
            t <= 255 * n,
            n <= 0x1_0000,
            one > 0,
    ;
    lemma_sum_is_exact(row, 149);
    let s = sum(row);
    lemma_whole_exact(n);
    let d = n * one;
    let v = t * one;
    assert(d > 0) by (nonlinear_arith)
        requires
            d == n * one,
            n > 0,
            one > 0,
    ;
    assert(0 <= v * one <= 2048 * one * d) by (nonlinear_arith)
        requires
            v == t * one,
            d == n * one,
            0 <= t <= 255 * n,
            one > 0,
            n > 0,
    ;
    lemma_rounding_is_small(v * one, d);
    let level = row_level(img, y);
    let l = units(nearest(v * one, d));
    let p = speck();
    assert(level.mag() == nearest(v * one, d));
    assert(-p * n <= l * n - v <= p * n) by (nonlinear_arith)
        requires
            -p * d <= l * d - v * one <= p * d,
            d == n * one,
            one > 0,
    ;
}

/// The strongest of some magnitudes, and where it is first met.
proof fn lemma_strongest(mags: Seq<Single>, k: int)
    requires
        0 < k <= mags.len(),
        forall|j: int| 0 <= j < k ==> nonneg(#[trigger] mags[j]),
    ensures
        0 <= strongest(mags, k).0 < k,
        nonneg(strongest(mags, k).1),
        strongest(mags, k).1.rank() == mags[strongest(mags, k).0].rank(),
        strongest(mags, k).1.rank() > 0 ==> strongest(mags, k).1 == mags[strongest(mags, k).0],
        forall|j: int| 0 <= j < k ==> (#[trigger] mags[j]).rank() <= strongest(mags, k).1.rank(),
        forall|j: int|
            0 <= j < strongest(mags, k).0 ==> (#[trigger] mags[j]).rank() < strongest(
                mags,
                k,
            ).1.rank(),
    decreases k,
{
    assert(nonneg(mags[k - 1]));
    if k > 1 {
        lemma_strongest(mags, k - 1);
    } else {
        assert(strongest(mags, 0) == (0int, Single { bits: 0 }));
    }
}

/// Staff lines lie as far apart as the strongest frequency says that they
/// can have, which is the first of the strongest ones: in a page of `n` rows
/// they come once in `n / bin` rows, or once in twice as many. Frequencies
/// that would bring them more than 20 rows apart, or less than 8, are left
/// out.
pub proof fn lemma_spacing_is_of_strongest(n: int, mags: Seq<Single>) -> (bin: int)
    requires
        1 <= n <= 0x100_0000,
        forall|j: int| 0 <= j < mags.len() ==> nonneg(#[trigger] mags[j]),
        spacing_of(n, mags) is Some,
    ensures
        1 <= bin,
        n / 20 <= bin <= n / 8,
        bin < mags.len(),
        forall|j: int|
            1 <= j && n / 20 <= j <= n / 8 && j < mags.len() ==> (#[trigger] mags[j]).rank()
                <= mags[bin].rank(),
        forall|j: int|
            1 <= j && n / 20 <= j < bin ==> (#[trigger] mags[j]).rank() < mags[bin].rank(),
        ({
            let s = spacing_of(n, mags)->0.value();
            let slack = 4 * speck() * bin;
            ||| -slack <= s * bin - n * one_units() <= slack
            ||| -slack <= s * bin - 2 * (n * one_units()) <= slack && s <= 20 * one_units() && 2
                * bin < mags.len() && mags[2 * bin].rank() > 0
        }),
{
    let one = one_units();
    let p = speck();
    lemma_pow2_pos(149);
    lemma_pow2_pos(136);
    lemma2_to64();
    lemma_pow2_adds(136, 13);
    let lo = lowest_bin(n);
    let hi = highest_bin(n, mags.len() as int);
    let band = mags.subrange(lo, hi + 1);
    assert forall|j: int| 0 <= j < band.len() implies nonneg(#[trigger] band[j]) by {
        assert(band[j] == mags[lo + j]);
    }
    let c = band.len() as int;
    lemma_strongest(band, c);
    let (i, best) = strongest(band, c);
    let bin = i + lo;
    assert(band[i] == mags[bin]);
    assert forall|j: int| lo <= j <= hi implies (#[trigger] mags[j]).rank() <= mags[bin].rank() by {
        assert(band[j - lo] == mags[j]);
    }
    assert forall|j: int| lo <= j < bin implies (#[trigger] mags[j]).rank() < mags[bin].rank() by {
        assert(band[j - lo] == mags[j]);
    }
    lemma_whole_exact(n);
    lemma_whole_exact(bin);
    let d = bin * one;
    let v = n * one;
    assert(n <= 42 * bin);
    assert(d > 0) by (nonlinear_arith)
        requires
            d == bin * one,
            bin > 0,
            one > 0,
    ;
    assert(0 <= v * one <= 42 * (one * d)) by (nonlinear_arith)
        requires
            v == n * one,
            d == bin * one,
            0 <= n <= 42 * bin,
            one > 0,
    ;
    assert(42 * (one * d) <= 2048 * one * d) by (nonlinear_arith)
        requires
            one * d >= 0,
    ;
    lemma_rounding_is_small(v * one, d);
    let q = whole(n).over(whole(bin));
    let l = units(nearest(v * one, d));
    assert(q.mag() == nearest(v * one, d));
    assert(q.value() == l);
    assert(-(p * bin) <= l * bin - v <= p * bin) by (nonlinear_arith)
        requires
            -p * d <= l * d - v * one <= p * d,
            d == bin * one,
            one > 0,
    ;
    assert(l <= 43 * one) by (nonlinear_arith)
        requires
            l * bin <= v + p * bin,
            v == n * one,
            n <= 42 * bin,
            p <= one,
            bin > 0,
            one > 0,
    ;
    // Twice as much.
    let two = Single { bits: TWO };
    lemma_units_at(127, 0x80_0000);
    lemma_pow2_adds(127, 22);
    assert(two.value() == 2 * one);
    let t = q.times(two);
    let w = l * (2 * one);
    assert(0 <= w <= 2048 * one * one) by (nonlinear_arith)
        requires
            w == l * (2 * one),
            0 <= l <= 43 * one,
            one > 0,
    ;
    lemma_rounding_is_small(w, one);
    let m = units(nearest(w, one));
    assert(t.mag() == nearest(w, one));
    assert(t.value() == m);
    assert(-p <= m - 2 * l <= p) by (nonlinear_arith)
        requires
            -p * one <= m * one - w <= p * one,
            w == l * (2 * one),
            one > 0,
    ;
    assert(-(4 * p * bin) <= m * bin - 2 * v <= 4 * p * bin) by (nonlinear_arith)
        requires
            -p <= m - 2 * l <= p,
            -(p * bin) <= l * bin - v <= p * bin,
            bin > 0,
            p > 0,
    ;
    assert(p * bin <= 4 * p * bin) by (nonlinear_arith)
        requires
            p > 0,
            bin > 0,
    ;
    let widest = Single { bits: WIDEST_SPACING };
    lemma_units_at(130, 0xa0_0000);
    lemma_pow2_adds(130, 19);
    assert(widest.value() == 20 * one);
    lemma_order_is_by_value(t, widest);
    if 2 * bin < mags.len() && best.times(Single { bits: HARMONIC }).lt(mags[2 * bin]) {
        assert(nonneg(best));
        assert(nonneg(mags[2 * bin]));
        assert(best.times(Single { bits: HARMONIC }).rank() >= 0) by {
            if best.finite() {
                lemma_units_nonneg(best.mag());
                lemma_units_nonneg((Single { bits: HARMONIC }).mag());
                let x = units(best.mag()) * units((Single { bits: HARMONIC }).mag());
                assert(x >= 0) by (nonlinear_arith)
                    requires
                        x == units(best.mag()) * units((Single { bits: HARMONIC }).mag()),
                        units(best.mag()) >= 0,
                        units((Single { bits: HARMONIC }).mag()) >= 0,
                ;
                lemma_nearest_rounds(x, one);
                if best.negative() {
                    assert(best.mag() == 0);
                    lemma_units_at(0, 0);
                    assert(0 * units((Single { bits: HARMONIC }).mag()) == 0);
                    lemma_nearest_zero(one);
                }
            }
        }
    }
    bin
}

/// The magnitudes of the frequencies that staff lines can have in a page of
/// `n` rows.
pub open spec fn candidates(n: int, mags: Seq<Single>) -> Seq<Single> {
    let lo = if n / 20 > 1 {
        n / 20
    } else {
        1
    };
    let end = if n / 8 + 1 < mags.len() {
        n / 8 + 1
    } else {
        mags.len() as int
    };
    mags.subrange(lo, end)
}

/// There are staff lines where one frequency stands out threefold, and none
/// where none does: a distance is found only where a magnitude is at least
/// 2.99 times the mean of all, and always where one is more than 3.01 times
/// that. The magnitudes are such that they can be added up exactly.
pub proof fn lemma_staff_lines_stand_out(n: int, mags: Seq<Single>, u: nat, j: int)
    requires
        16 <= n <= 0x100_0000,
        mags.len() > n / 8,
        47 <= u <= 200,
        even_grained(candidates(n, mags), u),
        0 < total(candidates(n, mags)) <= 0x100_0000 * pow2(u),
        0 <= j < candidates(n, mags).len(),
    ensures
        ({
            let band = candidates(n, mags);
            let c = band.len() as int;
            &&& spacing_of(n, mags) is None ==> 100 * (band[j].value() * c) <= 301 * total(band)
            &&& spacing_of(n, mags) is Some ==> exists|i: int|
                0 <= i < c && 100 * ((#[trigger] band[i]).value() * c) >= 299 * total(band)
        }),
{
    let one = one_units();
    let lo = lowest_bin(n);
    let hi = highest_bin(n, mags.len() as int);
    let band = mags.subrange(lo, hi + 1);
    assert(band == candidates(n, mags));
    assert(lo < hi);
    let c = band.len() as int;
    let g = pow2(u) as int;
    let t = total(band);
    lemma_pow2_pos(149);
    lemma_pow2_pos(u);
    lemma2_to64();
    lemma_sum_is_exact(band, u);
    assert forall|k: int| 0 <= k < c implies nonneg(#[trigger] band[k]) by {
        assert(band[k].finite() && !band[k].negative());
    }
    lemma_strongest(band, c);
    let (i, best) = strongest(band, c);
    assert(band[i].finite() && !band[i].negative());
    assert(band[j].finite() && !band[j].negative());
    lemma_order_is_by_value(band[j], band[i]);
    assert(best.mag() == band[i].mag());
    lemma_units_at(0, 0);
    assert(best.value() == band[i].value());
    // The total is at least one grain.
    lemma_pow2_adds(47, (u - 47) as nat);
    lemma_pow2_pos((u - 47) as nat);
    lemma_pow2_adds(24, 23);
    assert(pow2(47) == 0x100_0000 * 0x80_0000);
    let z = pow2((u - 47) as nat) as int;
    assert(t >= g) by {
        vstd::arithmetic::div_mod::lemma_fundamental_div_mod(t, g);
        let k = t / g;
        assert(t >= g) by (nonlinear_arith)
            requires
                t == g * k + 0,
                t > 0,
                g > 0,
        ;
    }
    assert(t >= 0x80_0000 * c) by (nonlinear_arith)
        requires
            t >= g,
            g == (0x100_0000 * 0x80_0000) * z,
            z >= 1,
            c <= 0x100_0000,
    ;
    lemma_whole_exact(c);
    let d = c * one;
    let a = t * one;
    assert(d > 0 && a >= 0x80_0000 * d) by (nonlinear_arith)
        requires
            d == c * one,
            a == t * one,
            t >= 0x80_0000 * c,
            c > 0,
            one > 0,
    ;
    lemma_rounding_is_relative(a, d);
    let mean = sum(band).over(whole(c));
    let m = units(nearest(a, d));
    // Nothing is too large.
    lemma_power(76);
    lemma_power(78);
    lemma_pow2_adds(24, u);
    if u < 200 {
        lemma_pow2_strictly_increases(u, 200);
    }
    lemma_pow2_adds(24, 200);
    lemma_pow2_strictly_increases(224, 225);
    lemma_pow2_adds(2, 225);
    let huge = pow2(225) as int;
    assert(t <= huge);
    assert(a <= huge * d) by (nonlinear_arith)
        requires
            a == t * one,
            d == c * one,
            t <= huge,
            c >= 1,
            one > 0,
            huge > 0,
    ;
    lemma_nearest_le(power(76), a, d);
    assert(nearest(a, d) < MAG_INF);
    assert(mean.mag() == nearest(a, d));
    assert(!mean.negative());
    if nearest(a, d) < power(76) {
        lemma_units_mono(nearest(a, d), power(76));
    }
    assert(m <= huge);
    let mc = m * c;
    assert(-mc <= 0x100_0000 * (mc - t) <= mc) by (nonlinear_arith)
        requires
            -(m * d) <= 0x100_0000 * (m * d - a) <= m * d,
            mc == m * c,
            d == c * one,
            a == t * one,
            one > 0,
    ;
    // Three times the mean.
    let three = Single { bits: THREE };
    lemma_units_at(127, 0xc0_0000);
    lemma_pow2_adds(127, 22);
    assert(three.value() == 3 * one);
    let b = m * (3 * one);
    lemma_units_at_least(nearest(a, d));
    assert(b >= 0x80_0000 * one && b <= (4 * huge) * one) by (nonlinear_arith)
        requires
            b == m * (3 * one),
            0x80_0000 <= m <= huge,
            one > 0,
    ;
    lemma_rounding_is_relative(b, one);
    lemma_nearest_le(power(78), b, one);
    let limit = mean.times(three);
    let x = units(nearest(b, one));
    assert(limit.mag() == nearest(b, one));
    assert(limit.value() == x);
    assert(-x <= 0x100_0000 * (x - 3 * m) <= x) by (nonlinear_arith)
        requires
            -(x * one) <= 0x100_0000 * (x * one - b) <= x * one,
            b == m * (3 * one),
            one > 0,
    ;
    let xc = x * c;
    assert(-xc <= 0x100_0000 * (xc - 3 * mc) <= xc) by (nonlinear_arith)
        requires
            -x <= 0x100_0000 * (x - 3 * m) <= x,
            xc == x * c,
            mc == m * c,
            c > 0,
    ;
    lemma_order_is_by_value(best, limit);
    let v = best.value();
    if best.lt(limit) {
        assert(v * c <= xc) by (nonlinear_arith)
            requires
                v <= x,
                xc == x * c,
                c > 0,
        ;
        assert(band[j].value() * c <= v * c) by (nonlinear_arith)
            requires
                band[j].value() <= v,
                c > 0,
        ;
    } else {
        assert(v * c >= xc) by (nonlinear_arith)
            requires
                v >= x,
                xc == x * c,
                c > 0,
        ;
        assert(100 * (band[i].value() * c) >= 299 * t);
    }
}

/// Where the double of the strongest frequency is strong too, the lines lie
/// twice as far apart: it is so where the double has more than 0.81 of the
/// magnitude and twice the distance is less than 20 rows, and never where it
/// has less than 0.79 of it.
pub proof fn lemma_harmonics_double_the_distance(n: int, mags: Seq<Single>, bin: int)
    requires
        1 <= n <= 0x100_0000,
        forall|j: int| 0 <= j < mags.len() ==> nonneg(#[trigger] mags[j]),
        spacing_of(n, mags) is Some,
        1 <= bin,
        n / 20 <= bin <= n / 8,
        2 * bin < mags.len(),
        forall|j: int|
            1 <= j && n / 20 <= j <= n / 8 && j < mags.len() ==> (#[trigger] mags[j]).rank()
                <= mags[bin].rank(),
        forall|j: int|
            1 <= j && n / 20 <= j < bin ==> (#[trigger] mags[j]).rank() < mags[bin].rank(),
        mags[bin].finite(),
        mags[2 * bin].finite(),
        mags[bin].value() >= pow2(30),
    ensures
        100 * mags[2 * bin].value() <= 79 * mags[bin].value() ==> spacing_of(n, mags)
            == Some(whole(n).over(whole(bin))),
        100 * mags[2 * bin].value() >= 81 * mags[bin].value() && 2 * n <= 19 * bin ==> spacing_of(
            n,
            mags,
        ) == Some(whole(n).over(whole(bin)).times(whole(2))),
        2 * n >= 21 * bin ==> spacing_of(n, mags) == Some(whole(n).over(whole(bin))),
{
    let one = one_units();
    let p = speck();
    lemma_pow2_pos(149);
    lemma_pow2_pos(136);
    lemma2_to64();
    lemma_pow2_adds(136, 13);
    lemma_units_at(0, 0);
    let lo = lowest_bin(n);
    let hi = highest_bin(n, mags.len() as int);
    let band = mags.subrange(lo, hi + 1);
    assert forall|j: int| 0 <= j < band.len() implies nonneg(#[trigger] band[j]) by {
        assert(band[j] == mags[lo + j]);
    }
    let c = band.len() as int;
    assert(lo < hi);
    lemma_strongest(band, c);
    let (i, best) = strongest(band, c);
    assert(band[i] == mags[i + lo]);
    assert(band[bin - lo] == mags[bin]);
    assert(nonneg(mags[bin]));
    lemma_nonneg_value(mags[bin]);
    assert(mags[bin].rank() > 0);
    assert(i + lo == bin) by {
        if i + lo < bin {
            assert(mags[i + lo].rank() < mags[bin].rank());
        }
    }
    assert(best == mags[bin]);
    // How strong the double has to be.
    let share = Single { bits: HARMONIC };
    let e = pow2(125) as int;
    lemma_units_at(125, 0xcc_cccd);
    assert(125 * 0x80_0000 + 0xcc_cccd == 0x3f4c_cccd);
    lemma_pow2_pos(125);
    lemma_pow2_adds(125, 24);
    let us = units(share.mag());
    assert(us == 0xcc_cccd * e && one == 0x100_0000 * e);
    let v = best.value();
    assert(v == units(best.mag()));
    let b = v * us;
    lemma_pow2_adds(6, 24);
    assert(b >= 0x80_0000 * one && b <= v * one) by (nonlinear_arith)
        requires
            b == v * us,
            us == 0xcc_cccd * e,
            one == 0x100_0000 * e,
            v >= 64 * 0x100_0000,
            e > 0,
    ;
    lemma_rounding_is_relative(b, one);
    lemma_nearest_le(best.mag(), b, one);
    let limit = best.times(share);
    let x = units(nearest(b, one));
    assert(!best.negative());
    assert(limit.mag() == nearest(b, one));
    assert(limit.value() == x);
    assert(0xff_ffff * x <= v * 0xcc_cccd <= 0x100_0001 * x) by (nonlinear_arith)
        requires
            -(x * one) <= 0x100_0000 * (x * one - b) <= x * one,
            b == v * us,
            us == 0xcc_cccd * e,
            one == 0x100_0000 * e,
            e > 0,
    ;
    assert(799 * v <= 1000 * x <= 801 * v) by (nonlinear_arith)
        requires
            0xff_ffff * x <= v * 0xcc_cccd <= 0x100_0001 * x,
            v >= 0,
    ;
    lemma_order_is_by_value(limit, mags[2 * bin]);
    // How wide twice the distance is.
    lemma_whole_exact(n);
    lemma_whole_exact(bin);
    lemma_whole_exact(2);
    let two = Single { bits: TWO };
    lemma_units_at(127, 0x80_0000);
    lemma_pow2_adds(127, 22);
    assert(two.value() == 2 * one);
    if whole(2).mag() < two.mag() {
        lemma_units_mono(whole(2).mag(), two.mag());
    }
    if two.mag() < whole(2).mag() {
        lemma_units_mono(two.mag(), whole(2).mag());
    }
    assert(whole(2) == two);
    let widest = Single { bits: WIDEST_SPACING };
    lemma_units_at(130, 0xa0_0000);
    lemma_pow2_adds(130, 19);
    assert(widest.value() == 20 * one);
    let d = bin * one;
    let w = n * one;
    assert(n <= 42 * bin);
    assert(d > 0) by (nonlinear_arith)
        requires
            d == bin * one,
            bin > 0,
            one > 0,
    ;
    assert(0 <= w * one <= 2048 * one * d) by (nonlinear_arith)
        requires
            w == n * one,
            d == bin * one,
            0 <= n <= 42 * bin,
            one > 0,
    ;
    lemma_rounding_is_small(w * one, d);
    let q = whole(n).over(whole(bin));
    let l = units(nearest(w * one, d));
    assert(q.mag() == nearest(w * one, d));
    assert(q.value() == l);
    assert(-(p * bin) <= l * bin - w <= p * bin) by (nonlinear_arith)
        requires
            -p * d <= l * d - w * one <= p * d,
            d == bin * one,
            one > 0,
    ;
    assert(l <= 43 * one) by (nonlinear_arith)
        requires
            l * bin <= w + p * bin,
            w == n * one,
            n <= 42 * bin,
            p <= one,
            bin > 0,
            one > 0,
    ;
    let t = q.times(two);
    let y = l * (2 * one);
    assert(0 <= y <= 2048 * one * one) by (nonlinear_arith)
        requires
            y == l * (2 * one),
            0 <= l <= 43 * one,
            one > 0,
    ;
    lemma_rounding_is_small(y, one);
    let m = units(nearest(y, one));
    assert(t.mag() == nearest(y, one));
    assert(-p <= m - 2 * l <= p) by (nonlinear_arith)
        requires
            -p * one <= m * one - y <= p * one,
            y == l * (2 * one),
            one > 0,
    ;
    lemma_order_is_by_value(t, widest);
    if 2 * n <= 19 * bin {
        assert(m <= 20 * one) by (nonlinear_arith)
            requires
                m <= 2 * l + p,
                l * bin <= w + p * bin,
                w == n * one,
                2 * n <= 19 * bin,
                one == 8192 * p,
                bin > 0,
                p > 0,
        ;
    }
    if 2 * n >= 21 * bin {
        assert(m > 20 * one) by (nonlinear_arith)
            requires
                m >= 2 * l - p,
                l * bin >= w - p * bin,
                w == n * one,
                2 * n >= 21 * bin,
                one == 8192 * p,
                bin > 0,
                p > 0,
        ;
    }
}

} // verus!
