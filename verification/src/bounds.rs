//! What the rounded operations keep: signs, order and size.
use crate::order::sum;
use crate::rounding::{
    lemma_nearest_ge, lemma_nearest_le, lemma_nearest_rounds, lemma_units_at, lemma_units_mono,
    lemma_units_step, nearest, rounds, units, MAG_INF,
};
use crate::single::{one_units, rounded, whole, Single};
use vstd::arithmetic::power2::*;
use vstd::prelude::*;

verus! {

/// A number that is not below zero.
pub open spec fn nonneg(x: Single) -> bool {
    !x.nan() && x.rank() >= 0
}

/// The pattern of a power of two, at least the smallest normal one.
pub open spec fn power(e: int) -> int {
    (e + 127) * 0x80_0000
}

/// A power of two has as many units as it says.
pub proof fn lemma_power(e: int)
    requires
        -126 <= e <= 128,
    ensures
        units(power(e)) == pow2((e + 149) as nat),
{
    lemma_units_at((e + 126) as nat, 0x80_0000);
    assert((e + 126) * 0x80_0000 + 0x80_0000 == power(e));
    lemma_pow2_adds(23, (e + 126) as nat);
    lemma2_to64();
}

/// Numbers are ordered as their values are.
pub proof fn lemma_order_is_by_value(a: Single, b: Single)
    requires
        a.finite(),
        b.finite(),
    ensures
        a.lt(b) <==> a.value() < b.value(),
        a.le(b) <==> a.value() <= b.value(),
{
    let ma = a.mag();
    let mb = b.mag();
    assert(units(0) == 0);
    lemma_units_step(ma);
    lemma_units_step(mb);
    if ma < mb {
        lemma_units_mono(ma, mb);
    }
    if mb < ma {
        lemma_units_mono(mb, ma);
    }
    if ma > 0 {
        lemma_units_mono(0, ma);
    }
    if mb > 0 {
        lemma_units_mono(0, mb);
    }
}

/// A finite number that is not below zero has its magnitude for a value.
pub proof fn lemma_nonneg_value(a: Single)
    requires
        nonneg(a),
    ensures
        a.rank() == a.mag(),
        a.value() == units(a.mag()),
        a.value() >= 0,
        a.infinite() ==> !a.negative(),
{
    lemma_units_step(a.mag());
    assert(units(0) == 0);
}

/// Adding a number that is not below zero never makes a sum smaller.
pub proof fn lemma_plus_nonneg(a: Single, b: Single)
    requires
        nonneg(a),
        nonneg(b),
    ensures
        nonneg(a.plus(b)),
        a.plus(b).rank() >= b.rank(),
        a.plus(b).rank() >= a.rank(),
{
    lemma_nonneg_value(a);
    lemma_nonneg_value(b);
    if a.finite() && b.finite() {
        let n = a.value() + b.value();
        if n > 0 {
            assert(n * 1 == n);
            lemma_nearest_ge(b.mag(), n, 1);
            lemma_nearest_ge(a.mag(), n, 1);
        } else {
            if b.mag() > 0 {
                lemma_units_mono(0, b.mag());
            }
            if a.mag() > 0 {
                lemma_units_mono(0, a.mag());
            }
        }
    }
}

/// A sum of numbers not below zero is at least each of them.
pub proof fn lemma_sum_nonneg(s: Seq<Single>)
    requires
        forall|i: int| 0 <= i < s.len() ==> nonneg(#[trigger] s[i]),
    ensures
        nonneg(sum(s)),
        forall|i: int| 0 <= i < s.len() ==> (#[trigger] s[i]).rank() <= sum(s).rank(),
    decreases s.len(),
{
    if s.len() > 0 {
        let t = s.drop_last();
        assert forall|i: int| 0 <= i < t.len() implies nonneg(#[trigger] t[i]) by {
            assert(t[i] == s[i]);
        }
        lemma_sum_nonneg(t);
        assert(nonneg(s[s.len() - 1]));
        lemma_plus_nonneg(sum(t), s.last());
        assert forall|i: int| 0 <= i < s.len() implies (#[trigger] s[i]).rank() <= sum(s).rank() by {
            if i < s.len() - 1 {
                assert(t[i] == s[i]);
            }
        }
    }
}

/// Whole numbers up to two to the power of 24 are represented exactly.
pub proof fn lemma_whole_exact(n: int)
    requires
        0 <= n <= 0x100_0000,
    ensures
        whole(n).value() == n * one_units(),
        whole(n).finite(),
        !whole(n).negative(),
        nonneg(whole(n)),
        n > 0 ==> whole(n).rank() >= power(0),
        units(whole(n).mag()) == n * one_units(),
{
    lemma_pow2_pos(149);
    if n == 0 {
        assert(units(0) == 0);
        lemma_nearest_le(0, 0, 1);
        lemma_nearest_rounds(0, 1);
        assert(0 * one_units() == 0);
    } else {
        let m = lemma_shifted_pattern(n, 149);
        lemma_nearest_ge(m, n * one_units(), 1);
        lemma_nearest_le(m, n * one_units(), 1);
        lemma_power(0);
        if m < power(0) {
            lemma_units_mono(m, power(0));
        }
        let one = one_units();
        assert(n * one >= one) by (nonlinear_arith)
            requires
                n >= 1,
                one > 0,
        ;
        lemma_power(25);
        lemma_pow2_adds(25, 149);
        lemma2_to64();
        assert(n * one < 0x200_0000 * one) by (nonlinear_arith)
            requires
                n < 0x200_0000,
                one > 0,
        ;
        if m > power(25) {
            lemma_units_mono(power(25), m);
        }
    }
}

/// A significand of fewer bits has a pattern at a smaller exponent.
pub(crate) proof fn lemma_shifted_pattern(q: int, u: nat) -> (m: int)
    requires
        0 < q <= 0x100_0000,
    ensures
        m >= 0,
        units(m) == q * pow2(u),
    decreases u,
{
    if q >= 0x80_0000 || u == 0 {
        lemma_units_at(u, q);
        u * 0x80_0000 + q
    } else {
        lemma_pow2_unfold(u);
        let p = pow2((u - 1) as nat) as int;
        assert((2 * q) * p == q * (2 * p)) by (nonlinear_arith);
        lemma_shifted_pattern(2 * q, (u - 1) as nat)
    }
}

/// A rounded quotient lies between two patterns that the exact one lies
/// between.
pub proof fn lemma_over_between(a: Single, b: Single, lo: int, hi: int)
    requires
        nonneg(a),
        a.finite(),
        nonneg(b),
        b.finite(),
        b.rank() > 0,
        0 <= lo <= hi < MAG_INF,
        units(lo) * units(b.mag()) <= units(a.mag()) * one_units() <= units(hi) * units(b.mag()),
    ensures
        nonneg(a.over(b)),
        a.over(b).finite(),
        a.over(b).mag() >= lo,
        a.over(b).mag() <= hi,
        lo > 0 ==> lo <= a.over(b).rank() <= hi,
        a.negative() == b.negative() ==> !a.over(b).negative(),
{
    lemma_nonneg_value(a);
    lemma_nonneg_value(b);
    lemma_units_mono(0, b.mag());
    assert(units(0) == 0);
    lemma_pow2_pos(149);
    let n = units(a.mag()) * one_units();
    assert(n >= 0) by (nonlinear_arith)
        requires
            n == units(a.mag()) * one_units(),
            units(a.mag()) >= 0,
            one_units() > 0,
    ;
    lemma_nearest_ge(lo, n, units(b.mag()));
    lemma_nearest_le(hi, n, units(b.mag()));
    if a.negative() != b.negative() {
        assert(a.mag() == 0 || b.mag() == 0);
        assert(a.mag() == 0);
        assert(n == 0) by (nonlinear_arith)
            requires
                n == units(a.mag()) * one_units(),
                units(a.mag()) == 0,
        ;
        let d = units(b.mag());
        assert(units(0) * d == 0) by (nonlinear_arith)
            requires
                units(0) == 0,
        ;
        lemma_nearest_le(0, n, d);
        lemma_nearest_rounds(n, d);
    }
}

/// A rounded product lies between two patterns that the exact one lies
/// between.
pub proof fn lemma_times_between(a: Single, b: Single, lo: int, hi: int)
    requires
        a.finite(),
        b.finite(),
        !a.negative(),
        !b.negative(),
        0 <= lo <= hi < MAG_INF,
        units(lo) * one_units() <= units(a.mag()) * units(b.mag()) <= units(hi) * one_units(),
    ensures
        nonneg(a.times(b)),
        a.times(b).finite(),
        !a.times(b).negative(),
        lo <= a.times(b).rank() <= hi,
        lo <= a.times(b).mag() <= hi,
{
    lemma_units_step(a.mag());
    lemma_units_step(b.mag());
    lemma_pow2_pos(149);
    let n = units(a.mag()) * units(b.mag());
    assert(n >= 0) by (nonlinear_arith)
        requires
            n == units(a.mag()) * units(b.mag()),
            units(a.mag()) >= 0,
            units(b.mag()) >= 0,
    ;
    lemma_nearest_ge(lo, n, one_units());
    lemma_nearest_le(hi, n, one_units());
}

/// The number nearest to a positive whole number of at most 32 bits, give
/// or take a third or a double.
pub proof fn lemma_whole_range(n: int)
    requires
        1 <= n <= 0x1_0000_0000,
    ensures
        whole(n).finite(),
        !whole(n).negative(),
        nonneg(whole(n)),
        power(0) <= whole(n).rank() <= power(32),
        one_units() <= units(whole(n).mag()) <= 0x1_0000_0000 * one_units(),
        units(whole(n).mag()) <= 2 * (n * one_units()),
        3 * units(whole(n).mag()) >= 2 * (n * one_units()),
{
    let one = one_units();
    let v = n * one;
    lemma_pow2_pos(149);
    assert(one <= v <= 0x1_0000_0000 * one) by (nonlinear_arith)
        requires
            v == n * one,
            1 <= n <= 0x1_0000_0000,
            one > 0,
    ;
    lemma_power(0);
    lemma_power(32);
    lemma_pow2_adds(32, 149);
    lemma2_to64();
    lemma_nearest_ge(power(0), v, 1);
    lemma_nearest_le(power(32), v, 1);
    let m = nearest(v, 1);
    if power(0) < m {
        lemma_units_mono(power(0), m);
    }
    if m < power(32) {
        lemma_units_mono(m, power(32));
    }
    lemma_units_step(m - 1);
    lemma_units_step(m);
    lemma_step_small(m);
}

/// A normal pattern's successor is at most twice as large.
pub(crate) proof fn lemma_step_small(m: int)
    requires
        m >= 1,
    ensures
        units(m + 1) <= 2 * units(m),
{
    let u = crate::rounding::ulp_exponent(m);
    let q = m - u * 0x80_0000;
    lemma_units_step(m);
    lemma_units_at(u, q);
    lemma_pow2_pos(u);
    assert(q * pow2(u) >= pow2(u)) by (nonlinear_arith)
        requires
            q >= 1,
            pow2(u) > 0,
    ;
}

/// Larger whole numbers do not round to smaller ones.
pub proof fn lemma_whole_mono(a: int, b: int)
    requires
        0 <= a <= b,
    ensures
        nearest(a * one_units(), 1) <= nearest(b * one_units(), 1),
        whole(a).mag() <= whole(b).mag(),
        whole(a).rank() <= whole(b).rank(),
{
    let one = one_units();
    lemma_pow2_pos(149);
    assert(0 <= a * one <= b * one) by (nonlinear_arith)
        requires
            0 <= a <= b,
            one > 0,
    ;
    lemma_nearest_rounds(a * one, 1);
    lemma_nearest_rounds(b * one, 1);
    let x = nearest(a * one, 1);
    let y = nearest(b * one, 1);
    if y < x {
        lemma_units_step(y);
        if y + 1 < x {
            lemma_units_mono(y + 1, x);
            lemma_units_mono(y, x - 1);
        }
        // The larger one lies in the upper half of a lower cell.
        assert(2 * (b * one) <= (units(y) + units(y + 1)) * 1);
        assert(2 * (a * one) >= (units(x - 1) + units(x)) * 1);
        assert(units(y) + units(y + 1) <= units(x - 1) + units(x));
        assert(a * one == b * one);
    }
}

/// Nothing rounds to nothing.
pub proof fn lemma_nearest_zero(d: int)
    requires
        d > 0,
    ensures
        nearest(0, d) == 0,
{
    assert(units(0) == 0);
    assert(0 * d == 0);
    lemma_nearest_le(0, 0, d);
}

/// Taking away what is not negative never gives more.
pub proof fn lemma_minus_shrinks(x: Single, y: Single)
    requires
        !x.nan(),
        !y.nan(),
        y.rank() >= 0,
    ensures
        !x.minus(y).nan() ==> x.minus(y).le(x),
{
    let m = y.neg();
    assert(m.mag() == y.mag());
    if x.finite() && y.finite() {
        lemma_nearest_zero(1);
        if x.mag() > 0 {
            lemma_units_mono(0, x.mag());
        }
        if y.mag() > 0 {
            lemma_units_mono(0, y.mag());
        }
        assert(units(0) == 0) by {
            lemma_units_at(0, 0);
            lemma2_to64();
        }
        let n = x.value() - units(y.mag());
        assert(x.value() + m.value() == n);
        if n < 0 {
            lemma_nearest_rounds(-n, 1);
            if x.negative() {
                lemma_nearest_ge(x.mag(), -n, 1);
            }
        } else if n > 0 {
            lemma_nearest_le(x.mag(), n, 1);
        }
    }
}

/// A sum of numbers is a number, unless both are infinite.
pub proof fn lemma_plus_number(a: Single, b: Single)
    requires
        !a.nan(),
        !b.nan(),
        a.finite() || b.finite(),
    ensures
        !a.plus(b).nan(),
{
    if a.finite() && b.finite() {
        let n = a.value() + b.value();
        if n < 0 {
            lemma_nearest_rounds(-n, 1);
        } else if n > 0 {
            lemma_nearest_rounds(n, 1);
        }
    }
}

} // verus!
