//! Rounding to the nearest single-precision magnitude, ties to even.
//!
//! A finite single-precision number is a sign and a magnitude pattern `m`,
//! the low 31 bits of its encoding. Measured in the smallest positive
//! number, two to the power of -149, every magnitude is a whole number:
//! `units(m)`. Patterns are ordered as the magnitudes they stand for, so
//! rounding is a statement about neighbouring patterns.
use vstd::arithmetic::mul::*;
use vstd::arithmetic::power2::*;
use vstd::prelude::*;

verus! {

/// The pattern of infinity, one past the largest finite magnitude.
pub const MAG_INF: u32 = 0x7f80_0000;

/// How many units a magnitude pattern stands for. Defined for every
/// pattern, as if the exponent had no upper limit.
pub open spec fn units(m: int) -> int {
    if m < 0x80_0000 {
        m
    } else {
        (0x80_0000 + m % 0x80_0000) * pow2((m / 0x80_0000 - 1) as nat)
    }
}

/// Pattern `m` is the one nearest to `n / d` units; of two equally near
/// ones, the even one.
pub open spec fn rounds(m: int, n: int, d: int) -> bool {
    &&& m >= 0
    &&& m > 0 ==> {
        ||| 2 * n > (units(m - 1) + units(m)) * d
        ||| 2 * n == (units(m - 1) + units(m)) * d && m % 2 == 0
    }
    &&& {
        ||| 2 * n < (units(m) + units(m + 1)) * d
        ||| 2 * n == (units(m) + units(m + 1)) * d && m % 2 == 0
    }
}

/// The pattern nearest to `n / d` units, with an unlimited exponent.
pub open spec fn nearest(n: int, d: int) -> int {
    choose|m: int| rounds(m, n, d)
}

/// A pattern past the finite range stands for infinity.
pub open spec fn saturate(m: int) -> int {
    if m > MAG_INF {
        MAG_INF as int
    } else {
        m
    }
}

/// A significand `q` at exponent `u` has a pattern of its own.
pub proof fn lemma_units_at(u: nat, q: int)
    requires
        0 <= q <= 0x100_0000,
        u == 0 || q >= 0x80_0000,
    ensures
        units(u * 0x80_0000 + q) == q * pow2(u),
{
    let m = u * 0x80_0000 + q;
    lemma_pow2(0);
    if q < 0x80_0000 {
        assert(m == q);
        lemma2_to64();
        assert(q * 1 == q);
    } else if q < 0x100_0000 {
        assert(m / 0x80_0000 == u + 1);
        assert(m % 0x80_0000 == q - 0x80_0000);
        assert((m / 0x80_0000 - 1) as nat == u);
    } else {
        assert(m / 0x80_0000 == u + 2);
        assert(m % 0x80_0000 == 0);
        lemma_pow2_unfold((u + 1) as nat);
        assert(0x80_0000 * (2 * pow2(u)) == 0x100_0000 * pow2(u)) by (nonlinear_arith);
    }
}

/// The exponent of a pattern, as `lemma_units_at` counts it.
pub open spec fn ulp_exponent(m: int) -> nat {
    if m < 0x100_0000 {
        0
    } else {
        (m / 0x80_0000 - 1) as nat
    }
}

/// Neighbouring patterns differ by the unit of their exponent.
pub proof fn lemma_units_step(m: int)
    requires
        m >= 0,
    ensures
        units(m + 1) == units(m) + pow2(ulp_exponent(m)),
        units(m) < units(m + 1),
        units(m) >= 0,
{
    let u = ulp_exponent(m);
    let q = m - u * 0x80_0000;
    lemma_units_at(u, q);
    lemma_units_at(u, q + 1);
    lemma_pow2_pos(u);
    assert((q + 1) * pow2(u) == q * pow2(u) + pow2(u)) by (nonlinear_arith);
    assert(q * pow2(u) >= 0) by (nonlinear_arith)
        requires
            q >= 0,
            pow2(u) > 0,
    ;
}

/// Larger patterns stand for larger magnitudes.
pub proof fn lemma_units_mono(a: int, b: int)
    requires
        0 <= a < b,
    ensures
        units(a) < units(b),
    decreases b - a,
{
    lemma_units_step(b - 1);
    if a < b - 1 {
        lemma_units_mono(a, b - 1);
    }
}

/// At most one pattern is nearest.
pub proof fn lemma_rounds_unique(m1: int, m2: int, n: int, d: int)
    requires
        d > 0,
        rounds(m1, n, d),
        rounds(m2, n, d),
    ensures
        m1 == m2,
{
    lemma_rounds_ordered(m1, m2, n, d);
    lemma_rounds_ordered(m2, m1, n, d);
}

proof fn lemma_rounds_ordered(a: int, b: int, n: int, d: int)
    requires
        d > 0,
        rounds(a, n, d),
        rounds(b, n, d),
    ensures
        b <= a,
{
    if a + 1 < b {
        lemma_units_mono(a, b - 1);
        lemma_units_mono(a + 1, b);
        let x = units(a) + units(a + 1);
        let y = units(b - 1) + units(b);
        assert(x * d < y * d) by (nonlinear_arith)
            requires
                x < y,
                d > 0,
        ;
    }
}

/// The largest pattern, up to `top`, that does not exceed `n / d`.
proof fn lemma_floor_pattern(top: int, n: int, d: int) -> (m: int)
    requires
        d > 0,
        n >= 0,
        top >= 0,
        n < units(top + 1) * d,
    ensures
        m >= 0,
        units(m) * d <= n < units(m + 1) * d,
    decreases top,
{
    if units(top) * d <= n {
        top
    } else {
        if top == 0 {
            assert(units(0) == 0);
            assert(0 * d == 0);
        }
        lemma_floor_pattern(top - 1, n, d)
    }
}

/// A pattern stands for at least as many units as its number.
pub proof fn lemma_units_at_least(m: int)
    requires
        m >= 0,
    ensures
        units(m) >= m,
    decreases m,
{
    if m > 0 {
        lemma_units_at_least(m - 1);
        lemma_units_step(m - 1);
    }
}

/// Every quotient has a nearest pattern.
pub proof fn lemma_nearest_rounds(n: int, d: int)
    requires
        n >= 0,
        d > 0,
    ensures
        rounds(nearest(n, d), n, d),
{
    lemma_units_at_least(n + 1);
    assert(units(n + 1) * d > n) by (nonlinear_arith)
        requires
            units(n + 1) >= n + 1,
            d > 0,
            n >= 0,
    ;
    let f = lemma_floor_pattern(n, n, d);
    lemma_units_step(f);
    lemma_units_step(f + 1);
    let lo = units(f);
    let hi = units(f + 1);
    let mid = lo + hi;
    assert(mid * d == lo * d + hi * d) by (nonlinear_arith)
        requires
            mid == lo + hi,
    ;
    let above = hi + units(f + 2);
    assert(above * d > 2 * (hi * d)) by (nonlinear_arith)
        requires
            above > 2 * hi,
            d > 0,
    ;
    if f > 0 {
        lemma_units_step(f - 1);
        let below = units(f - 1) + lo;
        assert(below * d < 2 * (lo * d)) by (nonlinear_arith)
            requires
                below < 2 * lo,
                d > 0,
        ;
    }
    if 2 * n < mid * d || (2 * n == mid * d && f % 2 == 0) {
        assert(rounds(f, n, d));
    } else {
        assert(rounds(f + 1, n, d));
    }
}

/// A pattern not above the quotient is not above the nearest one.
pub proof fn lemma_nearest_ge(m: int, n: int, d: int)
    requires
        m >= 0,
        d > 0,
        units(m) * d <= n,
    ensures
        nearest(n, d) >= m,
        rounds(nearest(n, d), n, d),
{
    lemma_units_step(m);
    assert(n >= 0) by (nonlinear_arith)
        requires
            units(m) * d <= n,
            units(m) >= 0,
            d > 0,
    ;
    lemma_nearest_rounds(n, d);
    let r = nearest(n, d);
    if r < m {
        lemma_units_step(r);
        if r + 1 < m {
            lemma_units_mono(r + 1, m);
        }
        let s = units(r) + units(r + 1);
        assert(s * d < 2 * (units(m) * d)) by (nonlinear_arith)
            requires
                s < 2 * units(m),
                d > 0,
        ;
    }
}

/// A pattern not below the quotient is not below the nearest one.
pub proof fn lemma_nearest_le(m: int, n: int, d: int)
    requires
        m >= 0,
        d > 0,
        0 <= n <= units(m) * d,
    ensures
        nearest(n, d) <= m,
        rounds(nearest(n, d), n, d),
{
    lemma_nearest_rounds(n, d);
    let r = nearest(n, d);
    if r > m {
        lemma_units_step(r - 1);
        if m < r - 1 {
            lemma_units_mono(m, r - 1);
        }
        let s = units(r - 1) + units(r);
        assert(s * d > 2 * (units(m) * d)) by (nonlinear_arith)
            requires
                s > 2 * units(m),
                d > 0,
        ;
    }
}

/// What is nearest is named by `nearest`.
pub proof fn lemma_nearest(m: int, n: int, d: int)
    requires
        d > 0,
        rounds(m, n, d),
    ensures
        nearest(n, d) == m,
{
    lemma_rounds_unique(m, nearest(n, d), n, d);
}

/// Where the quotient `n / a` lies against the significand `t`: on it, in
/// the lower half of its cell, in the middle, or in the upper half. Before
/// the first halving only the cell is known.
pub open spec fn cell(t: int, a: int, n: int, guard: bool, sticky: bool, halved: bool) -> bool {
    &&& t * a <= n
    &&& n < (t + 1) * a
    &&& (!guard && !sticky ==> n == t * a)
    &&& (!guard && sticky ==> n > t * a && (halved ==> 2 * n < (2 * t + 1) * a))
    &&& (guard && !sticky ==> 2 * n == (2 * t + 1) * a)
    &&& (guard && sticky ==> 2 * n > (2 * t + 1) * a)
}

pub proof fn lemma_cell_halve(t: int, a: int, n: int, guard: bool, sticky: bool, halved: bool)
    requires
        t >= 0,
        a > 0,
        cell(t, a, n, guard, sticky, halved),
        !halved ==> !guard,
    ensures
        cell(t / 2, 2 * a, n, t % 2 == 1, sticky || guard, true),
{
    let h = t / 2;
    assert(t * a < n || !sticky && !guard) by (nonlinear_arith)
        requires
            a > 0,
            cell(t, a, n, guard, sticky, halved),
    ;
    if t % 2 == 0 {
        assert(t == 2 * h);
        assert(h * (2 * a) == t * a) by (nonlinear_arith)
            requires
                t == 2 * h,
        ;
        assert((2 * h + 1) * (2 * a) == 2 * ((t + 1) * a)) by (nonlinear_arith)
            requires
                t == 2 * h,
        ;
        assert((h + 1) * (2 * a) == (t + 1) * a + a) by (nonlinear_arith)
            requires
                t == 2 * h,
        ;
    } else {
        assert(t == 2 * h + 1);
        assert(h * (2 * a) == t * a - a) by (nonlinear_arith)
            requires
                t == 2 * h + 1,
        ;
        assert((2 * h + 1) * (2 * a) == 2 * (t * a)) by (nonlinear_arith)
            requires
                t == 2 * h + 1,
        ;
        assert((h + 1) * (2 * a) == (t + 1) * a) by (nonlinear_arith)
            requires
                t == 2 * h + 1,
        ;
    }
}

/// Scaling both sides by `p` keeps every comparison with `n`.
proof fn lemma_scale(s: int, n: int, d: int, p: int)
    requires
        p > 0,
    ensures
        2 * n < s * d <==> 2 * (n * p) < s * (p * d),
        2 * n == s * d <==> 2 * (n * p) == s * (p * d),
{
    let l = 2 * n;
    let r = s * d;
    assert(r * p == s * (p * d)) by (nonlinear_arith)
        requires
            r == s * d,
    ;
    assert(l * p == 2 * (n * p)) by (nonlinear_arith)
        requires
            l == 2 * n,
    ;
    assert(l < r <==> l * p < r * p) by (nonlinear_arith)
        requires
            p > 0,
    ;
    assert(l == r <==> l * p == r * p) by (nonlinear_arith)
        requires
            p > 0,
    ;
}

/// Rounding the significand `t` by its guard and sticky bits yields the
/// nearest pattern.
proof fn lemma_cell_rounds(t: int, u: nat, w: nat, n: int, d: int, guard: bool, sticky: bool)
    requires
        d > 0,
        0 <= t < 0x100_0000,
        u == 0 || t >= 0x80_0000,
        cell(t, pow2(u) * (pow2(w) * d), n * pow2(w), guard, sticky, true),
    ensures
        rounds(
            u * 0x80_0000 + t + if guard && (sticky || t % 2 == 1) { 1int } else { 0int },
            n,
            d,
        ),
{
    let up = guard && (sticky || t % 2 == 1);
    let q = t + if up { 1int } else { 0int };
    let m = u * 0x80_0000 + q;
    let p = pow2(w) as int;
    let b = p * d;
    let a = pow2(u) * b;
    let big = n * p;
    lemma_pow2_pos(w);
    lemma_pow2_pos(u);
    lemma_units_at(u, t);
    lemma_units_at(u, t + 1);
    lemma_units_at(u, q);
    lemma_units_step(m);
    if m > 0 {
        lemma_units_step(m - 1);
    }
    let above = units(m) + units(m + 1);
    lemma_scale(above, n, d, p);
    lemma_scale(units(m - 1) + units(m), n, d, p);
    assert((t * pow2(u)) * b == t * a) by (nonlinear_arith)
        requires
            a == pow2(u) * b,
    ;
    assert(((t + 1) * pow2(u)) * b == (t + 1) * a) by (nonlinear_arith)
        requires
            a == pow2(u) * b,
    ;
    assert((t * pow2(u) + (t + 1) * pow2(u)) * b == (2 * t + 1) * a) by (nonlinear_arith)
        requires
            a == pow2(u) * b,
    ;
    assert(b > 0) by (nonlinear_arith)
        requires
            p > 0,
            d > 0,
            b == p * d,
    ;
    assert(a > 0) by (nonlinear_arith)
        requires
            a == pow2(u) * b,
            pow2(u) > 0,
            b > 0,
    ;
    assert((2 * t + 1) * a == 2 * (t * a) + a) by (nonlinear_arith);
    assert(m % 2 == q % 2);
    if up {
        let below = units(m - 1) + units(m);
        assert(m - 1 == u * 0x80_0000 + t);
        assert(below * b == (2 * t + 1) * a);
        assert(2 * units(m) < above);
        assert((2 * units(m)) * b < above * b) by (nonlinear_arith)
            requires
                2 * units(m) < above,
                b > 0,
        ;
        assert((2 * units(m)) * b == 2 * ((t + 1) * a)) by (nonlinear_arith)
            requires
                units(m) == (t + 1) * pow2(u),
                a == pow2(u) * b,
        ;
        assert(2 * big < above * b);
        assert(2 * n < above * d);
    } else {
        assert(units(m + 1) == (t + 1) * pow2(u));
        assert(above * b == (2 * t + 1) * a);
        if m > 0 {
            let below = units(m - 1) + units(m);
            assert(below * b < (2 * units(m)) * b) by (nonlinear_arith)
                requires
                    below < 2 * units(m),
                    b > 0,
            ;
            assert((2 * units(m)) * b == 2 * (t * a)) by (nonlinear_arith)
                requires
                    units(m) == t * pow2(u),
                    a == pow2(u) * b,
            ;
            }
    }
}

/// Rounds the quotient `n / d` units, which lies in the cell of `sig` times
/// two to the power of `k`; `sticky` tells whether it lies past the cell's
/// lower end.
pub(crate) fn round_scaled(sig: u128, k: i64, sticky: bool, Ghost(n): Ghost<int>, Ghost(d): Ghost<
    int,
>) -> (m: u32)
    requires
        d > 0,
        -1000 <= k <= 1000,
        sticky ==> sig >= 0x100_0000,
        ({
            let kp = if k >= 0 { k as nat } else { 0 };
            let w = if k >= 0 { 0 } else { (-k) as nat };
            let a = pow2(kp) * d;
            &&& sig * a <= n * pow2(w)
            &&& n * pow2(w) < (sig + 1) * a
            &&& (sticky <==> n * pow2(w) > sig * a)
        }),
    ensures
        m == saturate(nearest(n, d)),
{
    let ghost kp: nat = if k >= 0 { k as nat } else { 0 };
    let ghost w: nat = if k >= 0 { 0 } else { (-k) as nat };
    let ghost big = n * pow2(w);
    proof {
        lemma_pow2_pos(kp);
        lemma_pow2_pos(w);
        assert(pow2(kp) * d > 0) by (nonlinear_arith)
            requires
                pow2(kp) > 0,
                d > 0,
        ;
    }
    if sig == 0 {
        proof {
            assert(n == 0) by (nonlinear_arith)
                requires
                    n * pow2(w) == 0,
                    pow2(w) > 0,
            ;
            lemma_units_step(0);
            assert((units(0) + units(1)) * d == d);
            assert(rounds(0, n, d));
            lemma_nearest(0, n, d);
        }
        return 0;
    }
    let mut t: u128 = sig;
    let mut s: i64 = 0;
    let mut guard: bool = false;
    let mut st: bool = sticky;
    let ghost mut a: int = pow2(kp) * d;
    proof {
        lemma2_to64();
        assert(1 * (pow2(kp) * d) == pow2(kp) * d) by (nonlinear_arith);
    }
    proof {
        lemma_pow2_adds(64, 64);
        assert(pow2(64) * pow2(64) == 0x1_0000_0000_0000_0000 * 0x1_0000_0000_0000_0000);
    }
    while t >= 0x100_0000 || k + s < 0
        invariant
            -1000 <= k <= 1000,
            0 <= s <= 1000,
            d > 0,
            kp == (if k >= 0 { k as nat } else { 0 }),
            a == pow2(s as nat) * (pow2(kp) * d),
            a > 0,
            cell(t as int, a, big, guard, st, s > 0),
            s == 0 ==> !guard && t == sig && st == sticky,
            s > 0 ==> k + s <= 0 || t >= 0x80_0000,
            t < pow2(if s <= 128 { (128 - s) as nat } else { 0 }),
        decreases t + (if k + s < 0 { -(k + s) } else { 0 }),
    {
        proof {
            lemma_cell_halve(t as int, a, big, guard, st, s > 0);
            lemma_pow2_unfold((s + 1) as nat);
            assert(pow2((s + 1) as nat) * (pow2(kp) * d) == 2 * a) by (nonlinear_arith)
                requires
                    pow2((s + 1) as nat) == 2 * pow2(s as nat),
                    a == pow2(s as nat) * (pow2(kp) * d),
            ;
            lemma2_to64();
            if s < 128 {
                lemma_pow2_unfold((128 - s) as nat);
                if s >= 105 && s != 104 {
                    lemma_pow2_strictly_increases((128 - s) as nat, 24);
                }
            }
        }
        st = st || guard;
        guard = t % 2 == 1;
        t = t / 2;
        s = s + 1;
        proof {
            a = 2 * a;
        }
    }
    let mut u: i64 = k + s;
    proof {
        // a == 2^u * (2^w * d)
        lemma_pow2_adds(s as nat, kp);
        lemma_pow2_adds(u as nat, w);
        assert(s + kp == u + w);
        let x = pow2(s as nat) as int;
        let y = pow2(kp) as int;
        let v = pow2(u as nat) as int;
        let z = pow2(w) as int;
        assert(x * (y * d) == v * (z * d)) by (nonlinear_arith)
            requires
                x * y == v * z,
        ;
    }
    while t < 0x80_0000 && u > 0
        invariant
            d > 0,
            0 <= u <= 3000,
            0 < t < 0x100_0000 || u == 0,
            t < 0x100_0000,
            a == pow2(u as nat) * (pow2(w) * d),
            big == n * pow2(w),
            u > 0 && t < 0x80_0000 ==> !guard && !st,
            cell(t as int, a, big, guard, st, true),
        decreases u,
    {
        proof {
            lemma_pow2_unfold(u as nat);
            let v = pow2((u - 1) as nat) as int;
            let c = pow2(w) * d;
            let tt = t as int;
            lemma_pow2_pos((u - 1) as nat);
            lemma_pow2_pos(w);
            assert(c > 0) by (nonlinear_arith)
                requires
                    c == pow2(w) * d,
                    pow2(w) > 0,
                    d > 0,
            ;
            assert(v * c > 0) by (nonlinear_arith)
                requires
                    v > 0,
                    c > 0,
            ;
            assert(a == 2 * (v * c)) by (nonlinear_arith)
                requires
                    a == (2 * v) * c,
            ;
            assert((2 * tt) * (v * c) == tt * (2 * (v * c))) by (nonlinear_arith);
            assert((2 * tt + 1) * (v * c) > (2 * tt) * (v * c)) by (nonlinear_arith)
                requires
                    v * c > 0,
            ;
            a = v * c;
        }
        t = t * 2;
        u = u - 1;
    }
    let up: bool = guard && (st || t % 2 == 1);
    proof {
        lemma_cell_rounds(t as int, u as nat, w, n, d, guard, st);
    }
    let m: u64 = (u as u64) * 0x80_0000 + (t as u64) + (if up { 1u64 } else { 0u64 });
    proof {
        lemma_nearest(m as int, n, d);
    }
    if m > MAG_INF as u64 {
        MAG_INF
    } else {
        m as u32
    }
}

} // verus!
