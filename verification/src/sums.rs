//! What sums of single-precision numbers come to.
use crate::bounds::{lemma_power, lemma_shifted_pattern, power};
use crate::monotone::{lemma_plus_commutes, lemma_plus_mono, lemma_units_nonneg};
use crate::order::sum;
use crate::rounding::{
    lemma_nearest_ge, lemma_nearest_le, lemma_nearest_rounds, lemma_units_at, lemma_units_mono,
    lemma_units_step, nearest, ulp_exponent, units, MAG_INF,
};
use crate::single::{one_units, Single};
use vstd::arithmetic::div_mod::*;
use vstd::arithmetic::power2::*;
use vstd::prelude::*;

verus! {

/// The exact sum of numbers, in units.
pub open spec fn total(s: Seq<Single>) -> int
    decreases s.len(),
{
    if s.len() == 0 {
        0
    } else {
        total(s.drop_last()) + s.last().value()
    }
}

/// Numbers that are not negative and have no places after a certain one:
/// they are multiples of two to the power of `u`, in units.
pub open spec fn even_grained(s: Seq<Single>, u: nat) -> bool {
    forall|i: int|
        0 <= i < s.len() ==> (#[trigger] s[i]).finite() && !s[i].negative() && s[i].value() % (pow2(
            u,
        ) as int) == 0
}

/// A number of few places has a pattern of its own.
pub(crate) proof fn lemma_grained_pattern(n: int, u: nat) -> (m: int)
    requires
        0 <= n <= 0x100_0000 * pow2(u),
        n % (pow2(u) as int) == 0,
        u <= 200,
    ensures
        0 <= m < MAG_INF,
        units(m) == n,
        nearest(n, 1) == m,
{
    let g = pow2(u) as int;
    lemma_pow2_pos(u);
    lemma_fundamental_div_mod(n, g);
    let q = n / g;
    assert(n == q * g) by (nonlinear_arith)
        requires
            n == g * q + 0,
    ;
    assert(0 <= q <= 0x100_0000) by (nonlinear_arith)
        requires
            n == q * g,
            0 <= n <= 0x100_0000 * g,
            g > 0,
    ;
    lemma_units_at(0, 0);
    lemma2_to64();
    let m = if q == 0 {
        assert(0 * g == 0);
        0
    } else {
        lemma_shifted_pattern(q, u)
    };
    assert(units(m) * 1 == n);
    lemma_nearest_ge(m, n, 1);
    lemma_nearest_le(m, n, 1);
    // 2^24 grains of at most 2^200 units are far from the largest number.
    lemma_power(76);
    lemma_pow2_adds(24, u);
    lemma_pow2_adds(24, 200);
    if u < 200 {
        lemma_pow2_strictly_increases(u, 200);
    }
    lemma_pow2_strictly_increases(224, 225);
    assert(g * 0x100_0000 == 0x100_0000 * g);
    assert(units(power(76)) == pow2(225));
    if m >= power(76) {
        if m > power(76) {
            lemma_units_mono(power(76), m);
        }
        assert(units(m) <= pow2(224));
        assert(false);
    }
    m
}

/// Sums of numbers of few places are exact.
pub proof fn lemma_sum_is_exact(s: Seq<Single>, u: nat)
    requires
        even_grained(s, u),
        total(s) <= 0x100_0000 * pow2(u),
        u <= 200,
    ensures
        sum(s).finite(),
        sum(s).value() == total(s),
        total(s) >= 0,
        total(s) % (pow2(u) as int) == 0,
        s.len() > 0 ==> !sum(s).negative(),
    decreases s.len(),
{
    let g = pow2(u) as int;
    lemma_pow2_pos(u);
    lemma_units_at(0, 0);
    lemma2_to64();
    if s.len() == 0 {
        lemma_small_mod(0, pow2(u));
    } else {
        let t = s.drop_last();
        let x = s.last();
        assert(x == s[s.len() - 1]);
        assert forall|i: int| 0 <= i < t.len() implies (#[trigger] t[i]).finite()
            && !t[i].negative() && t[i].value() % g == 0 by {
            assert(t[i] == s[i]);
        }
        lemma_units_nonneg(x.mag());
        assert(x.value() >= 0);
        lemma_total_nonneg(t, u);
        lemma_sum_is_exact(t, u);
        let a = sum(t);
        let n = a.value() + x.value();
        lemma_sum_mod(a.value(), x.value(), g);
        let m = lemma_grained_pattern(n, u);
    }
}

proof fn lemma_sum_mod(a: int, b: int, g: int)
    requires
        g > 0,
        a % g == 0,
        b % g == 0,
    ensures
        (a + b) % g == 0,
{
    lemma_fundamental_div_mod(a, g);
    lemma_fundamental_div_mod(b, g);
    let q = a / g + b / g;
    assert(a + b == q * g) by (nonlinear_arith)
        requires
            a == g * (a / g) + 0,
            b == g * (b / g) + 0,
            q == a / g + b / g,
    ;
    lemma_mod_multiples_basic(q, g);
}

pub(crate) proof fn lemma_total_nonneg(s: Seq<Single>, u: nat)
    requires
        even_grained(s, u),
    ensures
        total(s) >= 0,
    decreases s.len(),
{
    if s.len() > 0 {
        let t = s.drop_last();
        assert forall|i: int| 0 <= i < t.len() implies (#[trigger] t[i]).finite()
            && !t[i].negative() && t[i].value() % (pow2(u) as int) == 0 by {
            assert(t[i] == s[i]);
        }
        lemma_total_nonneg(t, u);
        assert(s.last() == s[s.len() - 1]);
        lemma_units_nonneg(s.last().mag());
    }
}

/// Larger numbers have no smaller a sum.
pub proof fn lemma_sum_mono(a: Seq<Single>, b: Seq<Single>)
    requires
        a.len() == b.len(),
        forall|i: int|
            0 <= i < a.len() ==> (#[trigger] a[i]).finite() && b[i].finite() && a[i].le(b[i]),
    ensures
        sum(a).le(sum(b)),
    decreases a.len(),
{
    if a.len() > 0 {
        let s = a.drop_last();
        let t = b.drop_last();
        assert forall|i: int| 0 <= i < s.len() implies (#[trigger] s[i]).finite() && t[i].finite()
            && s[i].le(t[i]) by {
            assert(s[i] == a[i]);
            assert(t[i] == b[i]);
        }
        lemma_sum_mono(s, t);
        let x = a.last();
        let y = b.last();
        assert(a[a.len() - 1] == x && b[a.len() - 1] == y);
        lemma_plus_mono(sum(s), sum(t), x);
        if sum(t).finite() {
            lemma_plus_commutes(sum(t), x);
            lemma_plus_commutes(sum(t), y);
            lemma_plus_mono(x, y, sum(t));
        }
    }
}

/// Half of the last place of numbers up to 2048.
pub open spec fn speck() -> int {
    pow2(136) as int
}

/// A number below 2048 lies near the pattern that it is rounded to.
pub(crate) proof fn lemma_rounding_is_small(n: int, d: int)
    requires
        d > 0,
        0 <= n <= 2048 * one_units() * d,
    ensures
        0 <= nearest(n, d) <= power(11),
        nearest(n, d) < MAG_INF,
        -speck() * d <= units(nearest(n, d)) * d - n <= speck() * d,
        0 <= units(nearest(n, d)) <= 2048 * one_units(),
{
    let one = one_units();
    lemma_pow2_pos(149);
    lemma_power(11);
    lemma_pow2_adds(11, 149);
    lemma2_to64();
    assert(units(power(11)) == 2048 * one);
    lemma_nearest_le(power(11), n, d);
    lemma_nearest_rounds(n, d);
    let m = nearest(n, d);
    lemma_units_nonneg(m);
    if m < power(11) {
        lemma_units_mono(m, power(11));
    }
    lemma_units_step(m);
    lemma_pow2_unfold(137);
    let e = ulp_exponent(m);
    assert(e <= 137);
    if e < 137 {
        lemma_pow2_strictly_increases(e, 137);
    }
    lemma_pow2_pos(e);
    let s = pow2(e) as int;
    let x = units(m);
    let y = units(m + 1);
    let k = speck();
    assert(y == x + s && s <= 2 * k);
    assert((x + y) * d <= 2 * (x * d) + 2 * (k * d)) by (nonlinear_arith)
        requires
            y <= x + 2 * k,
            d > 0,
    ;
    if m > 0 {
        lemma_units_step(m - 1);
        let f = ulp_exponent(m - 1);
        if f < 137 {
            lemma_pow2_strictly_increases(f, 137);
        }
        let w = units(m - 1);
        assert((w + x) * d >= 2 * (x * d) - 2 * (k * d)) by (nonlinear_arith)
            requires
                w >= x - 2 * k,
                d > 0,
        ;
    }
    assert(-k * d == -(k * d)) by (nonlinear_arith);
    if m == 0 {
        assert(units(0) == 0) by {
            lemma_units_at(0, 0);
        }
        assert(k * d >= 0) by (nonlinear_arith)
            requires
                k >= 0,
                d > 0,
        ;
        assert(0 * d == 0);
    }
}

/// A sum below 2048 is rounded by half a place at most.
pub proof fn lemma_plus_is_near(a: Single, b: Single)
    requires
        a.finite(),
        b.finite(),
        a.value() + b.value() <= 2048 * one_units(),
        -2048 * one_units() <= a.value() + b.value(),
    ensures
        a.plus(b).finite(),
        -speck() <= a.plus(b).value() - (a.value() + b.value()) <= speck(),
{
    let n = a.value() + b.value();
    lemma_pow2_pos(136);
    lemma_units_at(0, 0);
    lemma2_to64();
    if n > 0 {
        lemma_rounding_is_small(n, 1);
    } else if n < 0 {
        lemma_rounding_is_small(-n, 1);
    }
}

/// A difference below 2048 is rounded by half a place at most.
pub proof fn lemma_minus_is_near(a: Single, b: Single)
    requires
        a.finite(),
        b.finite(),
        a.value() - b.value() <= 2048 * one_units(),
        -2048 * one_units() <= a.value() - b.value(),
    ensures
        a.minus(b).finite(),
        -speck() <= a.minus(b).value() - (a.value() - b.value()) <= speck(),
{
    assert(b.neg().mag() == b.mag());
    assert(b.neg().value() == -b.value());
    lemma_plus_is_near(a, b.neg());
}

/// A number that is not tiny is rounded by half of its last place at most:
/// by less than one part in two to the power of 24.
pub(crate) proof fn lemma_rounding_is_relative(n: int, d: int)
    requires
        d > 0,
        n >= 0x80_0000 * d,
    ensures
        nearest(n, d) >= 0x80_0000,
        -(units(nearest(n, d)) * d) <= 0x100_0000 * (units(nearest(n, d)) * d - n) <= units(
            nearest(n, d),
        ) * d,
{
    lemma_units_at(0, 0x80_0000);
    lemma2_to64();
    lemma_nearest_ge(0x80_0000, n, d);
    lemma_nearest_rounds(n, d);
    let m = nearest(n, d);
    let e = ulp_exponent(m);
    let q = m - e * 0x80_0000;
    lemma_units_step(m);
    lemma_units_step(m - 1);
    lemma_pow2_pos(e);
    let s = pow2(e) as int;
    let x = units(m);
    let y = units(m + 1);
    let w = units(m - 1);
    assert(0x80_0000 <= q < 0x100_0000);
    lemma_units_at(e, q);
    assert(0x80_0000 * s <= x) by (nonlinear_arith)
        requires
            x == q * s,
            q >= 0x80_0000,
            s > 0,
    ;
    let f = ulp_exponent(m - 1);
    if f < e {
        lemma_pow2_strictly_increases(f, e);
    }
    assert(y == x + s);
    assert(w >= x - s);
    assert(0x100_0000 * (n - x * d) <= x * d && 0x100_0000 * (x * d - n) <= x * d) by (
        nonlinear_arith)
        requires
            2 * n <= (x + y) * d,
            2 * n >= (w + x) * d,
            y == x + s,
            w >= x - s,
            0x80_0000 * s <= x,
            d > 0,
    ;
}

} // verus!
