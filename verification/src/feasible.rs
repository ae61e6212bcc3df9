//! Why the search for staves always comes to an end on a page with ink.
use crate::bounds::{
    lemma_nonneg_value, lemma_power, lemma_sum_nonneg, lemma_whole_exact, lemma_whole_range, nonneg,
    power,
};
use crate::image::GrayImage;
use crate::order::{all_numbers, sum};
use crate::rounding::{
    lemma_nearest_ge, lemma_nearest_rounds, lemma_units_mono, lemma_units_step, units, MAG_INF,
};
use crate::signal::{darkness, levels, row_darkness, sample_left, sample_right, TWO, WHITE};
use crate::single::{one_units, whole, Single};
use crate::staves::{above_zero, comb, combed, peak_threshold, tap};
use vstd::arithmetic::div_mod::*;
use vstd::arithmetic::power2::*;
use vstd::prelude::*;

verus! {

/// A pixel of the sampled columns is not white.
pub open spec fn has_ink(img: &GrayImage) -> bool {
    exists|x: int, y: int|
        sample_left(img) <= x < sample_right(img) && 0 <= y < img.height && #[trigger] img.pixel(
            x,
            y,
        ) < 255
}

/// The darkness of a pixel is a number, not below zero, and at least one
/// where the pixel is not white.
proof fn lemma_darkness(p: u8)
    ensures
        nonneg(darkness(p)),
        p < 255 ==> darkness(p).rank() >= power(0),
{
    let w = Single { bits: WHITE };
    let x = whole(p as int);
    let one = one_units();
    lemma_whole_exact(p as int);
    lemma_whole_exact(255);
    lemma_pow2_pos(149);
    assert(units(WHITE as int) == 255 * one) by {
        // 255 is 0xff0000 at exponent 133.
        crate::rounding::lemma_units_at(133, 0xff_0000);
        lemma_pow2_adds(16, 133);
        lemma2_to64();
        let q = pow2(133) as int;
        assert(0xff_0000 * q == 255 * (0x1_0000 * q)) by (nonlinear_arith);
    }
    let n = (255 - p) * one;
    assert(255 * one - p * one == n) by (nonlinear_arith)
        requires
            n == (255 - p) * one,
    ;
    assert(x.neg().value() == -(p * one));
    if p < 255 {
        assert(n >= one) by (nonlinear_arith)
            requires
                n == (255 - p) * one,
                p < 255,
                one > 0,
        ;
        lemma_power(0);
        lemma_nearest_ge(power(0), n, 1);
    } else {
        assert(n == 0) by (nonlinear_arith)
            requires
                n == (255 - p) * one,
                p == 255,
        ;
    }
}

/// A quotient by a whole number of at most 32 bits is not below zero, and
/// at most 32 powers of two smaller.
proof fn lemma_over_whole(a: Single, k: int, e: int)
    requires
        nonneg(a),
        1 <= k <= 0x1_0000_0000,
        -94 <= e <= 0,
    ensures
        nonneg(a.over(whole(k))),
        a.rank() >= power(e) ==> a.over(whole(k)).rank() >= power(e - 32),
{
    let b = whole(k);
    let one = one_units();
    lemma_whole_range(k);
    lemma_nonneg_value(a);
    lemma_pow2_pos(149);
    if a.finite() {
        let ua = units(a.mag());
        let ub = units(b.mag());
        let n = ua * one;
        assert(n >= 0) by (nonlinear_arith)
            requires
                n == ua * one,
                ua >= 0,
                one > 0,
        ;
        lemma_nearest_rounds(n, ub);
        if a.negative() {
            assert(a.mag() == 0);
            assert(units(0) == 0);
            assert(n == 0) by (nonlinear_arith)
                requires
                    n == ua * one,
                    ua == 0,
            ;
            assert(units(0) * ub == 0) by (nonlinear_arith)
                requires
                    units(0) == 0,
            ;
            crate::bounds::lemma_nearest_zero(ub);
        }
        if a.rank() >= power(e) {
            lemma_power(e);
            lemma_power(e - 32);
            if power(e) < a.mag() {
                lemma_units_mono(power(e), a.mag());
            }
            lemma_pow2_adds(32, (e - 32 + 149) as nat);
            lemma2_to64();
            let lo = units(power(e - 32));
            lemma_units_step(power(e - 32));
            assert(lo * ub <= lo * (0x1_0000_0000 * one)) by (nonlinear_arith)
                requires
                    ub <= 0x1_0000_0000 * one,
                    lo >= 0,
            ;
            assert(lo * (0x1_0000_0000 * one) == (0x1_0000_0000 * lo) * one) by (nonlinear_arith);
            assert((0x1_0000_0000 * lo) * one <= ua * one) by (nonlinear_arith)
                requires
                    0x1_0000_0000 * lo <= ua,
                    one > 0,
            ;
            lemma_nearest_ge(power(e - 32), n, ub);
        }
    }
}

/// Twice a number is not smaller.
proof fn lemma_twice(a: Single, m: int)
    requires
        nonneg(a),
        0 < m <= a.rank(),
        m < MAG_INF,
    ensures
        above_zero(a.times(Single { bits: TWO })),
{
    let two = Single { bits: TWO };
    let one = one_units();
    lemma_nonneg_value(a);
    lemma_pow2_pos(149);
    if a.finite() {
        lemma_power(1);
        lemma_pow2_adds(1, 149);
        lemma2_to64();
        assert(two.mag() == power(1));
        let ua = units(a.mag());
        let n = ua * units(two.mag());
        lemma_units_mono(0, a.mag());
        assert(units(0) == 0);
        assert(ua * one <= n) by (nonlinear_arith)
            requires
                n == ua * (2 * one),
                ua > 0,
                one > 0,
        ;
        lemma_nearest_ge(a.mag(), n, one);
    }
}

/// On a page with sampled columns every row has a level, and a row with ink
/// one above zero.
proof fn lemma_levels(img: &GrayImage)
    requires
        sample_left(img) < sample_right(img),
    ensures
        forall|y: int| 0 <= y < img.height ==> nonneg(#[trigger] levels(img)[y]),
        forall|x: int, y: int|
            sample_left(img) <= x < sample_right(img) && 0 <= y < img.height && #[trigger] img.pixel(
                x,
                y,
            ) < 255 ==> levels(img)[y].rank() >= power(-32),
{
    let k = sample_right(img) - sample_left(img);
    assert forall|y: int| 0 <= y < img.height implies nonneg(#[trigger] levels(img)[y]) && (forall|
        x: int,
    |
        sample_left(img) <= x < sample_right(img) && #[trigger] img.pixel(x, y) < 255 ==> levels(
            img,
        )[y].rank() >= power(-32)) by {
        let row = row_darkness(img, y);
        assert forall|i: int| 0 <= i < row.len() implies nonneg(#[trigger] row[i]) by {
            lemma_darkness(img.pixel(sample_left(img) + i, y));
        }
        lemma_sum_nonneg(row);
        lemma_over_whole(sum(row), k, 0);
        assert forall|x: int|
            sample_left(img) <= x < sample_right(img) && #[trigger] img.pixel(x, y)
                < 255 implies levels(img)[y].rank() >= power(-32) by {
            lemma_darkness(img.pixel(x, y));
            assert(row[x - sample_left(img)] == darkness(img.pixel(x, y)));
        }
    }
}

/// The comb filter of a page with ink: all its values are numbers, and its
/// threshold is above zero.
pub proof fn lemma_filter_of_inked_page(img: &GrayImage, spacing: Single)
    requires
        has_ink(img),
        spacing.nearest_whole(usize::MAX as int) >= 0,
    ensures
        img.height > 0,
        img.width >= 2,
        all_numbers(combed(levels(img), spacing)),
        above_zero(peak_threshold(combed(levels(img), spacing))),
{
    let sig = levels(img);
    let conv = combed(sig, spacing);
    let s = spacing.nearest_whole(usize::MAX as int);
    let (x, y) = choose|x: int, y: int|
        sample_left(img) <= x < sample_right(img) && 0 <= y < img.height && #[trigger] img.pixel(
            x,
            y,
        ) < 255;
    lemma_levels(img);
    assert(sig[y].rank() >= power(-32));
    assert forall|i: int| 0 <= i < conv.len() implies nonneg(#[trigger] conv[i])
        && conv[i].rank() >= sig[i].rank() by {
        let taps = seq![
            tap(sig, i),
            tap(sig, i + s),
            tap(sig, i + 2 * s),
            tap(sig, i + 3 * s),
            tap(sig, i + 4 * s),
        ];
        assert forall|j: int| 0 <= j < taps.len() implies nonneg(#[trigger] taps[j]) by {
            let at = i + j * s;
            assert(taps[j] == tap(sig, at)) by {
                if j == 0 {
                    assert(0 * s == 0);
                } else if j == 1 {
                    assert(1 * s == s);
                }
            }
            assert(at >= 0) by (nonlinear_arith)
                requires
                    at == i + j * s,
                    i >= 0,
                    j >= 0,
                    s >= 0,
            ;
            if at < sig.len() {
                assert(nonneg(levels(img)[at]));
            }
        }
        lemma_sum_nonneg(taps);
        assert(taps[0] == sig[i]);
    }
    lemma_sum_nonneg(conv);
    assert(conv[y].rank() >= power(-32));
    lemma_over_whole(sum(conv), conv.len() as int, -32);
    lemma_twice(sum(conv).over(whole(conv.len() as int)), power(-64));
}

/// A number between one and a power of two rounds to a whole number in the
/// same range.
pub proof fn lemma_round_range(x: Single, e: int, hi: int)
    requires
        x.finite(),
        !x.negative(),
        0 <= e <= 31,
        power(0) <= x.rank() <= power(e),
        hi >= pow2(e as nat),
    ensures
        1 <= x.nearest_whole(hi) <= pow2(e as nat),
{
    let one = one_units();
    let u = units(x.mag());
    let top = pow2(e as nat) as int;
    lemma_pow2_pos(149);
    lemma_pow2_pos(e as nat);
    lemma_power(0);
    lemma_power(e);
    lemma_pow2_adds(e as nat, 149);
    if power(0) < x.mag() {
        lemma_units_mono(power(0), x.mag());
    }
    if x.mag() < power(e) {
        lemma_units_mono(x.mag(), power(e));
    }
    let n = 2 * u + one;
    let d = 2 * one;
    assert(1 * d <= n && n < (top + 1) * d) by (nonlinear_arith)
        requires
            one <= u <= top * one,
            one > 0,
            n == 2 * u + one,
            d == 2 * one,
    ;
    let q = n / d;
    lemma_fundamental_div_mod(n, d);
    lemma_mod_bound(n, d);
    assert(1 <= q <= top) by (nonlinear_arith)
        requires
            n == d * q + n % d,
            0 <= n % d < d,
            1 * d <= n,
            n < (top + 1) * d,
            d > 0,
    ;
}

} // verus!
