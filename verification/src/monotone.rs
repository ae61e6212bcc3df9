//! The rounded operations keep the order of numbers.
use crate::bounds::{lemma_nearest_zero, lemma_order_is_by_value, lemma_plus_number};
use crate::rounding::{
    lemma_nearest_rounds, lemma_units_at, lemma_units_mono, nearest, saturate, units,
};
use crate::single::{one_units, rounded, Single};
use vstd::arithmetic::div_mod::*;
use vstd::arithmetic::power2::*;
use vstd::prelude::*;

verus! {

/// A larger quotient does not round to a smaller pattern.
pub proof fn lemma_nearest_mono(a: int, b: int, d: int)
    requires
        0 <= a <= b,
        d > 0,
    ensures
        0 <= nearest(a, d) <= nearest(b, d),
{
    lemma_nearest_rounds(a, d);
    lemma_nearest_rounds(b, d);
    let x = nearest(a, d);
    let y = nearest(b, d);
    if y < x {
        let upper = units(x - 1) + units(x);
        let lower = units(y) + units(y + 1);
        if y + 1 < x {
            lemma_units_mono(y + 1, x);
            lemma_units_mono(y, x - 1);
            assert(lower * d < upper * d) by (nonlinear_arith)
                requires
                    lower < upper,
                    d > 0,
            ;
        }
        assert(2 * b <= lower * d);
        assert(2 * a >= upper * d);
    }
}

/// The patterns of a rounded quotient with a sign.
pub(crate) proof fn lemma_rounded_rank(neg: bool, n: int, d: int)
    requires
        n >= 0,
        d > 0,
    ensures
        !rounded(neg, n, d).nan(),
        neg ==> rounded(neg, n, d).rank() == -saturate(nearest(n, d)),
        !neg ==> rounded(neg, n, d).rank() == saturate(nearest(n, d)),
{
    lemma_nearest_rounds(n, d);
}

/// Sums do not depend on the order.
pub proof fn lemma_plus_commutes(a: Single, b: Single)
    ensures
        a.plus(b) == b.plus(a),
{
}

/// Adding the same to a larger number does not give less.
pub proof fn lemma_plus_mono(a: Single, b: Single, c: Single)
    requires
        a.le(b),
        c.finite(),
    ensures
        a.plus(c).le(b.plus(c)),
{
    lemma_plus_number(a, c);
    lemma_plus_number(b, c);
    if a.finite() && b.finite() {
        lemma_order_is_by_value(a, b);
        let s = a.value() + c.value();
        let t = b.value() + c.value();
        if s < 0 {
            lemma_rounded_rank(true, -s, 1);
        } else if s > 0 {
            lemma_rounded_rank(false, s, 1);
        }
        if t < 0 {
            lemma_rounded_rank(true, -t, 1);
            lemma_nearest_mono(-t, -s, 1);
        } else if t > 0 {
            lemma_rounded_rank(false, t, 1);
            lemma_nearest_rounds(t, 1);
            if s > 0 {
                lemma_nearest_mono(s, t, 1);
            }
        }
        if s < 0 {
            lemma_nearest_rounds(-s, 1);
        }
    }
}

/// Taking away more does not leave more.
pub proof fn lemma_minus_anti(x: Single, a: Single, b: Single)
    requires
        a.le(b),
        x.finite(),
    ensures
        x.minus(b).le(x.minus(a)),
{
    lemma_plus_commutes(x, a.neg());
    lemma_plus_commutes(x, b.neg());
    lemma_plus_mono(b.neg(), a.neg(), x);
}

/// The units of a pattern are not negative.
pub(crate) proof fn lemma_units_nonneg(m: int)
    requires
        m >= 0,
    ensures
        units(m) >= 0,
{
    lemma_units_at(0, 0);
    lemma2_to64();
    if m > 0 {
        lemma_units_mono(0, m);
    }
}

/// A larger pattern gives no smaller product.
proof fn lemma_product_mono(m: int, n: int, c: int)
    requires
        0 <= m <= n,
        c >= 0,
    ensures
        0 <= units(m) * c <= units(n) * c,
        0 <= nearest(units(m) * c, one_units()) <= nearest(units(n) * c, one_units()),
{
    lemma_units_nonneg(m);
    if m < n {
        lemma_units_mono(m, n);
    }
    let x = units(m);
    let y = units(n);
    assert(0 <= x * c <= y * c) by (nonlinear_arith)
        requires
            0 <= x <= y,
            c >= 0,
    ;
    lemma_pow2_pos(149);
    lemma_nearest_mono(x * c, y * c, one_units());
}

/// A larger number times the same positive one does not give less.
pub proof fn lemma_times_mono(a: Single, b: Single, c: Single)
    requires
        a.le(b),
        c.finite(),
        !c.negative(),
        c.mag() > 0,
    ensures
        a.times(c).le(b.times(c)),
{
    let u = units(c.mag());
    let one = one_units();
    lemma_pow2_pos(149);
    lemma_units_nonneg(c.mag());
    if a.finite() {
        lemma_product_mono(a.mag(), a.mag(), u);
        lemma_rounded_rank(a.negative(), units(a.mag()) * u, one);
    }
    if b.finite() {
        lemma_product_mono(b.mag(), b.mag(), u);
        lemma_rounded_rank(b.negative(), units(b.mag()) * u, one);
    }
    if a.finite() && b.finite() {
        if a.negative() && b.negative() {
            lemma_product_mono(b.mag(), a.mag(), u);
        } else if !a.negative() && !b.negative() {
            lemma_product_mono(a.mag(), b.mag(), u);
        } else if !a.negative() && b.negative() {
            assert(a.mag() == 0 && b.mag() == 0);
            assert(units(0) == 0) by {
                lemma_units_at(0, 0);
                lemma2_to64();
            }
            assert(0 * u == 0);
            lemma_nearest_zero(one);
        }
    }
}

/// The whole part of a larger number is not smaller.
pub proof fn lemma_truncated_mono(a: Single, b: Single, lo: int, hi: int)
    requires
        a.le(b),
        lo <= hi,
    ensures
        a.truncated(lo, hi) <= b.truncated(lo, hi),
{
    let one = one_units();
    lemma_pow2_pos(149);
    lemma_units_nonneg(a.mag());
    lemma_units_nonneg(b.mag());
    if a.finite() && b.finite() {
        let x = units(a.mag());
        let y = units(b.mag());
        lemma_div_pos_is_pos(x, one);
        lemma_div_pos_is_pos(y, one);
        if a.mag() < b.mag() {
            lemma_units_mono(a.mag(), b.mag());
        }
        if b.mag() < a.mag() {
            lemma_units_mono(b.mag(), a.mag());
        }
        if x <= y {
            lemma_div_is_ordered(x, y, one);
        }
        if y <= x {
            lemma_div_is_ordered(y, x, one);
        }
        if !a.negative() && b.negative() {
            assert(a.mag() == 0 && b.mag() == 0);
            assert(units(0) == 0) by {
                lemma_units_at(0, 0);
                lemma2_to64();
            }
            lemma_basic_div(0, one);
        }
    }
}

} // verus!
