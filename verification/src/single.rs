//! Single-precision numbers, held as their bit patterns.
//!
//! Every operation is the one of binary floating-point arithmetic: the
//! exact result, rounded to the nearest single-precision number, ties to
//! even. A result that is not a number is always the same quiet pattern.
use crate::rounding::{
    cell, lemma_cell_halve, lemma_units_at, lemma_units_mono, lemma_units_step, nearest,
    round_scaled, saturate, units, MAG_INF,
};
use vstd::arithmetic::div_mod::*;
use vstd::arithmetic::mul::*;
use vstd::arithmetic::power2::*;
use vstd::prelude::*;

verus! {

/// A single-precision number, by its 32-bit encoding.
#[derive(Clone, Copy, Debug, PartialEq, Eq, Structural)]
pub struct Single {
    pub bits: u32,
}

/// The encoding of what is no number.
pub const NAN: u32 = 0x7fc0_0000;

/// How many units make one: two to the power of 149.
pub open spec fn one_units() -> int {
    pow2(149) as int
}

/// The number with this sign and magnitude pattern.
pub open spec fn signed(neg: bool, m: int) -> Single {
    Single { bits: (m + if neg { 0x8000_0000int } else { 0int }) as u32 }
}

/// The number nearest to `n / d` units, with a sign; infinity where the
/// finite numbers end.
pub open spec fn rounded(neg: bool, n: int, d: int) -> Single {
    signed(neg, saturate(nearest(n, d)))
}

/// The single-precision number nearest to the whole number `n`.
pub open spec fn whole(n: int) -> Single {
    rounded(false, n * one_units(), 1)
}

/// Shifts to the left by doubling.
fn doubled(x: u128, times: u32) -> (r: u128)
    requires
        x * pow2(times as nat) <= u128::MAX,
    ensures
        r == x * pow2(times as nat),
{
    let mut r: u128 = x;
    let mut i: u32 = 0;
    proof {
        lemma2_to64();
    }
    while i < times
        invariant
            i <= times,
            r == x * pow2(i as nat),
            x * pow2(times as nat) <= u128::MAX,
        decreases times - i,
    {
        proof {
            lemma_pow2_unfold((i + 1) as nat);
            let p = pow2(i as nat) as int;
            let y = x as int;
            assert(2 * (y * p) == y * (2 * p)) by (nonlinear_arith);
            if i + 1 < times {
                lemma_pow2_strictly_increases((i + 1) as nat, times as nat);
            }
            let big = pow2(times as nat) as int;
            assert(y * (2 * p) <= y * big) by (nonlinear_arith)
                requires
                    y >= 0,
                    2 * p <= big,
            ;
        }
        r = r * 2;
        i = i + 1;
    }
    r
}

/// The significand and exponent of a finite magnitude pattern.
fn split(m: u32) -> (r: (u32, u32))
    requires
        m < MAG_INF,
    ensures
        units(m as int) == r.0 * pow2(r.1 as nat),
        r.0 < 0x100_0000,
        r.1 <= 253,
        r.1 > 0 ==> r.0 >= 0x80_0000,
        r.0 == 0 <==> m == 0,
{
    if m < 0x100_0000 {
        proof {
            lemma_units_at(0, m as int);
        }
        (m, 0)
    } else {
        let u: u32 = m / 0x80_0000 - 1;
        let q: u32 = m - u * 0x80_0000;
        proof {
            lemma_units_at(u as nat, q as int);
        }
        (q, u)
    }
}

proof fn lemma_pow2_128()
    ensures
        pow2(128) == u128::MAX + 1,
{
    lemma2_to64();
    lemma_pow2_adds(64, 64);
    assert(pow2(64) * pow2(64) == 0x1_0000_0000_0000_0000 * 0x1_0000_0000_0000_0000);
}

impl Single {
    pub open spec fn negative(self) -> bool {
        self.bits >= 0x8000_0000
    }

    /// The magnitude pattern: the encoding without its sign.
    pub open spec fn mag(self) -> int {
        if self.negative() {
            self.bits - 0x8000_0000
        } else {
            self.bits as int
        }
    }

    pub open spec fn nan(self) -> bool {
        self.mag() > MAG_INF
    }

    pub open spec fn infinite(self) -> bool {
        self.mag() == MAG_INF
    }

    pub open spec fn finite(self) -> bool {
        self.mag() < MAG_INF
    }

    /// The value of a finite number, in units.
    pub open spec fn value(self) -> int {
        if self.negative() {
            -units(self.mag())
        } else {
            units(self.mag())
        }
    }

    /// A number that orders all numbers but those that are none as their
    /// values do; the two zeros share one rank.
    pub open spec fn rank(self) -> int {
        if self.negative() {
            -self.mag()
        } else {
            self.mag()
        }
    }

    pub open spec fn spec_neg(self) -> Single {
        if self.negative() {
            Single { bits: (self.bits - 0x8000_0000) as u32 }
        } else {
            Single { bits: (self.bits + 0x8000_0000) as u32 }
        }
    }

    pub open spec fn spec_plus(self, other: Single) -> Single {
        if self.nan() || other.nan() {
            Single { bits: NAN }
        } else if self.infinite() {
            if other.infinite() && self.negative() != other.negative() {
                Single { bits: NAN }
            } else {
                self
            }
        } else if other.infinite() {
            other
        } else {
            let sum = self.value() + other.value();
            if sum == 0 {
                signed(self.negative() && other.negative(), 0)
            } else if sum < 0 {
                rounded(true, -sum, 1)
            } else {
                rounded(false, sum, 1)
            }
        }
    }

    pub open spec fn spec_minus(self, other: Single) -> Single {
        self.spec_plus(other.spec_neg())
    }

    pub open spec fn spec_times(self, other: Single) -> Single {
        let neg = self.negative() != other.negative();
        if self.nan() || other.nan() {
            Single { bits: NAN }
        } else if self.infinite() || other.infinite() {
            if self.mag() == 0 || other.mag() == 0 {
                Single { bits: NAN }
            } else {
                signed(neg, MAG_INF as int)
            }
        } else {
            rounded(neg, units(self.mag()) * units(other.mag()), one_units())
        }
    }

    pub open spec fn spec_over(self, other: Single) -> Single {
        let neg = self.negative() != other.negative();
        if self.nan() || other.nan() {
            Single { bits: NAN }
        } else if self.infinite() {
            if other.infinite() {
                Single { bits: NAN }
            } else {
                signed(neg, MAG_INF as int)
            }
        } else if other.infinite() {
            signed(neg, 0)
        } else if other.mag() == 0 {
            if self.mag() == 0 {
                Single { bits: NAN }
            } else {
                signed(neg, MAG_INF as int)
            }
        } else {
            rounded(neg, units(self.mag()) * one_units(), units(other.mag()))
        }
    }

    pub open spec fn spec_lt(self, other: Single) -> bool {
        !self.nan() && !other.nan() && self.rank() < other.rank()
    }

    pub open spec fn spec_le(self, other: Single) -> bool {
        !self.nan() && !other.nan() && self.rank() <= other.rank()
    }

    /// The smaller of two numbers; the other one where one is no number.
    pub open spec fn spec_min(self, other: Single) -> Single {
        if self.nan() || other.spec_lt(self) {
            other
        } else {
            self
        }
    }

    /// The larger of two numbers; the other one where one is no number.
    pub open spec fn spec_max(self, other: Single) -> Single {
        if self.nan() || self.spec_lt(other) {
            other
        } else {
            self
        }
    }

    pub open spec fn spec_clamp(self, lo: Single, hi: Single) -> Single {
        if self.spec_lt(lo) {
            lo
        } else if hi.spec_lt(self) {
            hi
        } else {
            self
        }
    }

    fn sign(self) -> (r: bool)
        ensures
            r == self.negative(),
    {
        self.bits >= 0x8000_0000
    }

    fn magnitude(self) -> (r: u32)
        ensures
            r == self.mag(),
    {
        if self.bits >= 0x8000_0000 {
            self.bits - 0x8000_0000
        } else {
            self.bits
        }
    }

    fn join(neg: bool, m: u32) -> (r: Single)
        requires
            m <= MAG_INF,
        ensures
            r == signed(neg, m as int),
    {
        if neg {
            Single { bits: m + 0x8000_0000 }
        } else {
            Single { bits: m }
        }
    }

    /// Whether this is no number at all.
    pub fn is_nan(self) -> (r: bool)
        ensures
            r == self.nan(),
    {
        self.magnitude() > MAG_INF
    }

    /// The number with its sign flipped.
    #[verifier::when_used_as_spec(spec_neg)]
    pub fn neg(self) -> (r: Single)
        ensures
            r == self.spec_neg(),
    {
        if self.bits >= 0x8000_0000 {
            Single { bits: self.bits - 0x8000_0000 }
        } else {
            Single { bits: self.bits + 0x8000_0000 }
        }
    }

    /// The rounded sum.
    #[verifier::when_used_as_spec(spec_plus)]
    pub fn plus(self, other: Single) -> (r: Single)
        ensures
            r == self.spec_plus(other),
    {
        let ma = self.magnitude();
        let mb = other.magnitude();
        if ma > MAG_INF || mb > MAG_INF {
            return Single { bits: NAN };
        }
        if ma == MAG_INF {
            if mb == MAG_INF && self.sign() != other.sign() {
                return Single { bits: NAN };
            }
            return self;
        }
        if mb == MAG_INF {
            return other;
        }
        if ma < mb {
            Self::finite_sum(other.sign(), mb, self.sign(), ma)
        } else {
            Self::finite_sum(self.sign(), ma, other.sign(), mb)
        }
    }

    /// The sum of two finite numbers, the larger magnitude first.
    fn finite_sum(na: bool, ma: u32, nb: bool, mb: u32) -> (r: Single)
        requires
            mb <= ma < MAG_INF,
        ensures
            r == signed(na, ma as int).spec_plus(signed(nb, mb as int)),
    {
        let (sa, ea) = split(ma);
        let (sb, eb) = split(mb);
        let ghost ua = units(ma as int);
        let ghost ub = units(mb as int);
        proof {
            if mb < ma {
                lemma_units_mono(mb as int, ma as int);
            }
            lemma_units_step(mb as int);
            assert(units(0) == 0);
            if ma > 0 {
                lemma_units_mono(0, ma as int);
            }
            if ea < eb {
                // A larger exponent has the larger magnitude.
                lemma_exponents(sa as int, ea as nat, sb as int, eb as nat);
            }
        }
        if na != nb && ma == mb {
            return Single { bits: 0 };
        }
        if ma == 0 {
            return Self::join(na && nb, 0);
        }
        let ghost n = if na == nb { ua + ub } else { ua - ub };
        let diff: u32 = ea - eb;
        let m: u32;
        if diff <= 64 {
            proof {
                lemma_pow2_adds(24, 64);
                lemma_pow2_128();
                lemma2_to64();
                if diff < 64 {
                    lemma_pow2_strictly_increases(diff as nat, 64);
                }
                let p = pow2(diff as nat) as int;
                let x = sa as int;
                assert(x * p <= 0x100_0000 * 0x1_0000_0000_0000_0000) by (nonlinear_arith)
                    requires
                        0 <= x <= 0x100_0000,
                        0 <= p <= 0x1_0000_0000_0000_0000,
                ;
            }
            let x: u128 = doubled(sa as u128, diff);
            proof {
                let p = pow2(diff as nat) as int;
                let e = pow2(eb as nat) as int;
                lemma_pow2_adds(diff as nat, eb as nat);
                lemma_pow2_pos(eb as nat);
                assert(ua == x * e) by (nonlinear_arith)
                    requires
                        ua == sa * (p * e),
                        x == sa * p,
                ;
                assert(x >= sb) by (nonlinear_arith)
                    requires
                        x * e >= sb * e,
                        e > 0,
                ;
                assert((x + sb) * e == x * e + sb * e) by (nonlinear_arith);
                assert((x - sb) * e == x * e - sb * e) by (nonlinear_arith);
            }
            let sig: u128 = if na == nb {
                x + (sb as u128)
            } else {
                x - (sb as u128)
            };
            proof {
                let e = pow2(eb as nat) as int;
                lemma2_to64();
                assert(n == sig * e);
                assert(e * 1 == e);
                assert(n * 1 == n);
                assert((sig + 1) * e > sig * e) by (nonlinear_arith)
                    requires
                        e > 0,
                ;
            }
            m = round_scaled(sig, eb as i64, false, Ghost(n), Ghost(1));
        } else {
            let x: u128 = (sa as u128) * 0x100_0000_0000;
            let sticky: bool = sb != 0;
            let sig: u128 = if na == nb || !sticky {
                x
            } else {
                x - 1
            };
            proof {
                lemma2_to64();
                lemma2_to64_rest();
                let k = (ea - 40) as nat;
                let e = pow2(k) as int;
                lemma_pow2_pos(k);
                lemma_pow2_adds(40, k);
                assert(ua == x * e) by (nonlinear_arith)
                    requires
                        ua == sa * (0x100_0000_0000 * e),
                        x == sa * 0x100_0000_0000,
                ;
                // The smaller addend stays below one step of the larger.
                let g = pow2(eb as nat) as int;
                lemma_pow2_pos(eb as nat);
                lemma_pow2_adds((24 + eb) as nat, (k - 24 - eb) as nat);
                lemma_pow2_adds(24, eb as nat);
                lemma_pow2_pos((k - 24 - eb) as nat);
                let rest = pow2((k - 24 - eb) as nat) as int;
                assert(0 <= ub < e) by (nonlinear_arith)
                    requires
                        ub == sb * g,
                        0 <= sb < 0x100_0000,
                        e == (0x100_0000 * g) * rest,
                        g > 0,
                        rest >= 1,
                ;
                assert(ub > 0 <==> sticky) by (nonlinear_arith)
                    requires
                        ub == sb * g,
                        g > 0,
                        sticky == (sb != 0),
                        sb >= 0,
                ;
                assert((x + 1) * e == x * e + e) by (nonlinear_arith);
                assert((x - 1) * e == x * e - e) by (nonlinear_arith);
                assert(e * 1 == e);
                assert(n * 1 == n);
            }
            m = round_scaled(sig, ea as i64 - 40, sticky, Ghost(n), Ghost(1));
        }
        proof {
            assert(n > 0);
        }
        Self::join(na, m)
    }

    /// The rounded difference.
    #[verifier::when_used_as_spec(spec_minus)]
    pub fn minus(self, other: Single) -> (r: Single)
        ensures
            r == self.spec_minus(other),
    {
        self.plus(other.neg())
    }

    /// The rounded product.
    #[verifier::when_used_as_spec(spec_times)]
    pub fn times(self, other: Single) -> (r: Single)
        ensures
            r == self.spec_times(other),
    {
        let ma = self.magnitude();
        let mb = other.magnitude();
        let neg: bool = self.sign() != other.sign();
        if ma > MAG_INF || mb > MAG_INF {
            return Single { bits: NAN };
        }
        if ma == MAG_INF || mb == MAG_INF {
            if ma == 0 || mb == 0 {
                return Single { bits: NAN };
            }
            return Self::join(neg, MAG_INF);
        }
        let (sa, ea) = split(ma);
        let (sb, eb) = split(mb);
        assert(sa * sb <= 0x100_0000 * 0x100_0000) by (nonlinear_arith)
            requires
                0 <= sa <= 0x100_0000,
                0 <= sb <= 0x100_0000,
        ;
        let sig: u128 = (sa as u128) * (sb as u128);
        let k: i64 = ea as i64 + eb as i64 - 149;
        let ghost n = units(ma as int) * units(mb as int);
        let ghost d = one_units();
        proof {
            let x = pow2(ea as nat) as int;
            let y = pow2(eb as nat) as int;
            lemma_pow2_adds(ea as nat, eb as nat);
            lemma_pow2_pos(149);
            let xy = pow2((ea + eb) as nat) as int;
            assert((sa * x) * (sb * y) == (sa * sb) * (x * y)) by (nonlinear_arith);
            assert(n == sig * xy);
            let kp: nat = if k >= 0 { k as nat } else { 0 };
            let w: nat = if k >= 0 { 0 } else { (-k) as nat };
            lemma_pow2_adds((ea + eb) as nat, w);
            lemma_pow2_adds(kp, 149);
            assert(ea + eb + w == kp + 149);
            let a = pow2(kp) * d;
            lemma_pow2_pos((kp + 149) as nat);
            assert((sig * xy) * pow2(w) == sig * (xy * pow2(w))) by (nonlinear_arith);
            assert((sig + 1) * a > sig * a) by (nonlinear_arith)
                requires
                    a > 0,
            ;
        }
        let m = round_scaled(sig, k, false, Ghost(n), Ghost(d));
        Self::join(neg, m)
    }

    /// The rounded quotient.
    #[verifier::when_used_as_spec(spec_over)]
    pub fn over(self, other: Single) -> (r: Single)
        ensures
            r == self.spec_over(other),
    {
        let ma = self.magnitude();
        let mb = other.magnitude();
        let neg: bool = self.sign() != other.sign();
        if ma > MAG_INF || mb > MAG_INF {
            return Single { bits: NAN };
        }
        if ma == MAG_INF {
            if mb == MAG_INF {
                return Single { bits: NAN };
            }
            return Self::join(neg, MAG_INF);
        }
        if mb == MAG_INF {
            return Self::join(neg, 0);
        }
        if mb == 0 {
            if ma == 0 {
                return Single { bits: NAN };
            }
            return Self::join(neg, MAG_INF);
        }
        let (sa, ea) = split(ma);
        let (sb, eb) = split(mb);
        let num: u128 = (sa as u128) * 0x1_0000_0000_0000_0000;
        let sig: u128 = num / (sb as u128);
        let sticky: bool = num % (sb as u128) != 0;
        let k: i64 = 85 + ea as i64 - eb as i64;
        let ghost n = units(ma as int) * one_units();
        let ghost d = units(mb as int);
        proof {
            lemma_quotient(sa as int, ea as nat, sb as int, eb as nat, num as int, sig as int, k as int);
            lemma_units_mono(0, mb as int);
            assert(num == sig * sb + num % (sb as u128)) by (nonlinear_arith)
                requires
                    sig == num / (sb as u128),
                    sb > 0,
            ;
            if sticky {
                assert(sa >= 1);
                assert(sig >= 0x100_0000) by (nonlinear_arith)
                    requires
                        num >= 0x1_0000_0000_0000_0000,
                        sig == num / (sb as u128),
                        0 < sb < 0x100_0000,
                ;
            }
        }
        let m = round_scaled(sig, k, sticky, Ghost(n), Ghost(d));
        Self::join(neg, m)
    }

    /// Whether this number is less than the other.
    #[verifier::when_used_as_spec(spec_lt)]
    pub fn lt(self, other: Single) -> (r: bool)
        ensures
            r == self.spec_lt(other),
    {
        let ma = self.magnitude();
        let mb = other.magnitude();
        if ma > MAG_INF || mb > MAG_INF {
            return false;
        }
        if self.sign() {
            if other.sign() {
                mb < ma
            } else {
                ma > 0 || mb > 0
            }
        } else {
            !other.sign() && ma < mb
        }
    }

    /// Whether this number is at most the other.
    #[verifier::when_used_as_spec(spec_le)]
    pub fn le(self, other: Single) -> (r: bool)
        ensures
            r == self.spec_le(other),
    {
        let ma = self.magnitude();
        let mb = other.magnitude();
        if ma > MAG_INF || mb > MAG_INF {
            return false;
        }
        if self.sign() {
            if other.sign() {
                mb <= ma
            } else {
                true
            }
        } else if other.sign() {
            ma == 0 && mb == 0
        } else {
            ma <= mb
        }
    }

    #[verifier::when_used_as_spec(spec_min)]
    pub fn min(self, other: Single) -> (r: Single)
        ensures
            r == self.spec_min(other),
    {
        if self.is_nan() || other.lt(self) {
            other
        } else {
            self
        }
    }

    #[verifier::when_used_as_spec(spec_max)]
    pub fn max(self, other: Single) -> (r: Single)
        ensures
            r == self.spec_max(other),
    {
        if self.is_nan() || self.lt(other) {
            other
        } else {
            self
        }
    }

    /// The number, held between two bounds.
    #[verifier::when_used_as_spec(spec_clamp)]
    pub fn clamp(self, lo: Single, hi: Single) -> (r: Single)
        requires
            lo.spec_le(hi),
        ensures
            r == self.spec_clamp(lo, hi),
    {
        if self.lt(lo) {
            lo
        } else if hi.lt(self) {
            hi
        } else {
            self
        }
    }
}

/// A normal number has a larger magnitude than any of a smaller exponent.
proof fn lemma_exponents(sa: int, ea: nat, sb: int, eb: nat)
    requires
        ea < eb,
        0 <= sa < 0x100_0000,
        sb >= 0x80_0000,
    ensures
        sa * pow2(ea) < sb * pow2(eb),
{
    lemma_pow2_unfold(eb);
    lemma_pow2_pos(ea);
    if ea < eb - 1 {
        lemma_pow2_strictly_increases(ea, (eb - 1) as nat);
    }
    let p = pow2(ea) as int;
    let q = pow2((eb - 1) as nat) as int;
    assert(sa * p < sb * (2 * q)) by (nonlinear_arith)
        requires
            0 < p <= q,
            0 <= sa < 0x100_0000,
            sb >= 0x80_0000,
    ;
}

/// The quotient of two significands, scaled by two to the power of 64,
/// brackets the quotient of the numbers.
proof fn lemma_quotient(sa: int, ea: nat, sb: int, eb: nat, num: int, sig: int, k: int)
    requires
        sa >= 0,
        sb > 0,
        num == sa * 0x1_0000_0000_0000_0000,
        sig == num / sb,
        k == 85 + ea - eb,
    ensures
        ({
            let kp = if k >= 0 { k as nat } else { 0 };
            let w = if k >= 0 { 0 } else { (-k) as nat };
            let n = (sa * pow2(ea)) * one_units();
            let a = pow2(kp) * (sb * pow2(eb));
            &&& sig * a <= n * pow2(w)
            &&& n * pow2(w) < (sig + 1) * a
            &&& (num % sb != 0 <==> n * pow2(w) > sig * a)
        }),
{
    let kp: nat = if k >= 0 { k as nat } else { 0 };
    let w: nat = if k >= 0 { 0 } else { (-k) as nat };
    let pa = pow2(ea) as int;
    let pb = pow2(eb) as int;
    let pk = pow2(kp) as int;
    let pw = pow2(w) as int;
    let one = one_units();
    // Both sides share the factor c.
    let c = pk * pb;
    lemma_pow2_adds(kp, eb);
    lemma_pow2_adds(ea, 149);
    lemma_pow2_adds((ea + 149) as nat, w);
    lemma_pow2_adds(64, (kp + eb) as nat);
    lemma2_to64();
    assert(ea + 149 + w == 64 + kp + eb);
    assert((pa * one) * pw == 0x1_0000_0000_0000_0000 * c);
    let n = (sa * pa) * one;
    assert(n * pw == sa * ((pa * one) * pw)) by (nonlinear_arith)
        requires
            n == (sa * pa) * one,
    ;
    assert(n * pw == num * c) by (nonlinear_arith)
        requires
            n * pw == sa * (0x1_0000_0000_0000_0000 * c),
            num == sa * 0x1_0000_0000_0000_0000,
    ;
    let a = pk * (sb * pb);
    assert(a == sb * c) by (nonlinear_arith)
        requires
            a == pk * (sb * pb),
            c == pk * pb,
    ;
    lemma_pow2_pos((kp + eb) as nat);
    let r = num % sb;
    lemma_fundamental_div_mod(num, sb);
    lemma_mod_bound(num, sb);
    assert(sig * (sb * c) == (sb * sig) * c) by (nonlinear_arith);
    assert((sig + 1) * (sb * c) == (sb * sig) * c + sb * c) by (nonlinear_arith);
    assert(num * c == (sb * sig) * c + r * c) by (nonlinear_arith)
        requires
            num == sb * sig + r,
    ;
    assert(r * c < sb * c && r * c >= 0 && (r != 0 <==> r * c > 0)) by (nonlinear_arith)
        requires
            0 <= r < sb,
            c > 0,
    ;
}

/// The largest whole number not above `n / a`.
proof fn lemma_cell_floor(q: int, a: int, n: int, guard: bool, sticky: bool)
    requires
        a > 0,
        n >= 0,
        q >= 0,
        cell(q, a, n, guard, sticky, true),
    ensures
        n / a == q,
        (n + a - 1) / a == q + if guard || sticky { 1int } else { 0int },
        (2 * n + a) / (2 * a) == q + if guard { 1int } else { 0int },
{
    assert((q + 1) * a == q * a + a) by (nonlinear_arith);
    assert((2 * q + 1) * a == 2 * (q * a) + a) by (nonlinear_arith);
    lemma_fundamental_div_mod_converse(n, a, q, n - q * a);
    if guard || sticky {
        lemma_fundamental_div_mod_converse(n + a - 1, a, q + 1, n - 1 - q * a);
    } else {
        lemma_fundamental_div_mod_converse(n + a - 1, a, q, a - 1);
    }
    assert(q * (2 * a) == 2 * (q * a)) by (nonlinear_arith);
    assert((q + 1) * (2 * a) == 2 * (q * a) + 2 * a) by (nonlinear_arith);
    if guard {
        lemma_fundamental_div_mod_converse(2 * n + a, 2 * a, q + 1, 2 * n + a - (q + 1) * (2 * a));
    } else {
        lemma_fundamental_div_mod_converse(2 * n + a, 2 * a, q, 2 * n + a - q * (2 * a));
    }
}

/// The whole part of a finite magnitude, and where the rest lies.
fn whole_part(m: u32) -> (r: (u128, bool, bool))
    requires
        m < MAG_INF,
    ensures
        cell(r.0 as int, one_units(), units(m as int), r.1, r.2, true),
        units(m as int) >= 0,
{
    let (sig, e) = split(m);
    let ghost n = units(m as int);
    proof {
        lemma_units_step(m as int);
        lemma_pow2_pos(149);
    }
    if e >= 149 {
        proof {
            lemma_pow2_128();
            lemma_pow2_adds(24, 104);
            lemma_pow2_adds(149, (e - 149) as nat);
            if e - 149 < 104 {
                lemma_pow2_strictly_increases((e - 149) as nat, 104);
            }
            lemma2_to64();
            lemma2_to64_rest();
            let p = pow2((e - 149) as nat) as int;
            let g = pow2(104) as int;
            let x = sig as int;
            assert(x * p <= 0xff_ffff * g) by (nonlinear_arith)
                requires
                    0 <= x <= 0xff_ffff,
                    0 <= p <= g,
            ;
            assert(0x100_0000 * g == u128::MAX + 1);
        }
        let q: u128 = doubled(sig as u128, e - 149);
        proof {
            let p = pow2((e - 149) as nat) as int;
            let one = one_units();
            assert(n == q * one) by (nonlinear_arith)
                requires
                    n == sig * (one * p),
                    q == sig * p,
            ;
            assert((q + 1) * one == q * one + one) by (nonlinear_arith);
        }
        return (q, false, false);
    }
    let mut t: u128 = sig as u128;
    let mut i: u32 = e;
    let mut guard: bool = false;
    let mut sticky: bool = false;
    proof {
        lemma_pow2_pos(e as nat);
        let p = pow2(e as nat) as int;
        assert((t + 1) * p == t * p + p) by (nonlinear_arith);
    }
    while i < 149
        invariant
            i <= 149,
            cell(t as int, pow2(i as nat) as int, n, guard, sticky, true),
        decreases 149 - i,
    {
        proof {
            lemma_pow2_pos(i as nat);
            lemma_pow2_unfold((i + 1) as nat);
            lemma_cell_halve(t as int, pow2(i as nat) as int, n, guard, sticky, true);
        }
        sticky = sticky || guard;
        guard = t % 2 == 1;
        t = t / 2;
        i = i + 1;
    }
    (t, guard, sticky)
}

/// `x`, held between two bounds.
pub open spec fn within(x: int, lo: int, hi: int) -> int {
    if x < lo {
        lo
    } else if x > hi {
        hi
    } else {
        x
    }
}

impl Single {
    /// The whole number towards zero, held between two bounds; zero for
    /// what is no number.
    pub open spec fn truncated(self, lo: int, hi: int) -> int {
        if self.nan() {
            0
        } else if self.infinite() {
            if self.negative() {
                lo
            } else {
                hi
            }
        } else {
            let q = units(self.mag()) / one_units();
            within(
                if self.negative() {
                    -q
                } else {
                    q
                },
                lo,
                hi,
            )
        }
    }

    /// The next whole number upwards, held between zero and a bound.
    pub open spec fn ceiling(self, hi: int) -> int {
        if self.nan() || self.negative() {
            0
        } else if self.infinite() {
            hi
        } else {
            within((units(self.mag()) + one_units() - 1) / one_units(), 0, hi)
        }
    }

    /// The nearest whole number, halves upwards, held between zero and a
    /// bound.
    pub open spec fn nearest_whole(self, hi: int) -> int {
        if self.nan() || self.negative() {
            0
        } else if self.infinite() {
            hi
        } else {
            within((2 * units(self.mag()) + one_units()) / (2 * one_units()), 0, hi)
        }
    }

    /// The number nearest to a whole number.
    pub fn from_u64(n: u64) -> (r: Single)
        ensures
            r == whole(n as int),
    {
        let ghost v = n * one_units();
        proof {
            lemma_pow2_pos(149);
            lemma2_to64();
            let a = pow2(149) * 1;
            assert(v * 1 == v);
            assert((n + 1) * a == n * a + a) by (nonlinear_arith);
        }
        let m = round_scaled(n as u128, 149, false, Ghost(v), Ghost(1));
        Self::join(false, m)
    }

    pub fn from_u32(n: u32) -> (r: Single)
        ensures
            r == whole(n as int),
    {
        Self::from_u64(n as u64)
    }

    pub fn from_usize(n: usize) -> (r: Single)
        ensures
            r == whole(n as int),
    {
        Self::from_u64(n as u64)
    }

    /// The number nearest to a whole number with a sign.
    pub fn from_i64(n: i64) -> (r: Single)
        ensures
            r == (if n < 0 {
                whole(-n).spec_neg()
            } else {
                whole(n as int)
            }),
    {
        if n < 0 {
            let a: u64 = (-(n as i128)) as u64;
            Self::from_u64(a).neg()
        } else {
            Self::from_u64(n as u64)
        }
    }

    fn whole_up_to(self, hi: u128, ceil: bool, round: bool) -> (r: u128)
        requires
            !(ceil && round),
        ensures
            !ceil && !round && !self.negative() ==> r == self.truncated(0, hi as int),
            ceil ==> r == self.ceiling(hi as int),
            round ==> r == self.nearest_whole(hi as int),
            self.negative() ==> r == 0,
    {
        let m = self.magnitude();
        if m > MAG_INF || self.sign() {
            return 0;
        }
        if m == MAG_INF {
            return hi;
        }
        let (q, guard, sticky) = whole_part(m);
        proof {
            lemma_pow2_pos(149);
            lemma_cell_floor(q as int, one_units(), units(m as int), guard, sticky);
        }
        let up: bool = (ceil && (guard || sticky)) || (round && guard);
        if q >= hi {
            hi
        } else if up {
            q + 1
        } else {
            q
        }
    }

    /// The whole part, as an unsigned number.
    pub fn to_u32(self) -> (r: u32)
        ensures
            r == self.truncated(0, u32::MAX as int),
    {
        proof {
            lemma_never_negative(self, u32::MAX as int);
        }
        self.whole_up_to(u32::MAX as u128, false, false) as u32
    }

    pub fn to_usize(self) -> (r: usize)
        ensures
            r == self.truncated(0, usize::MAX as int),
    {
        proof {
            lemma_never_negative(self, usize::MAX as int);
        }
        self.whole_up_to(usize::MAX as u128, false, false) as usize
    }

    pub fn to_u8(self) -> (r: u8)
        ensures
            r == self.truncated(0, u8::MAX as int),
    {
        proof {
            lemma_never_negative(self, u8::MAX as int);
        }
        self.whole_up_to(u8::MAX as u128, false, false) as u8
    }

    /// The whole part, as a signed number.
    pub fn to_i32(self) -> (r: i32)
        ensures
            r == self.truncated(i32::MIN as int, i32::MAX as int),
    {
        if self.sign() {
            proof {
                lemma_units_mag(self);
            }
            let a: u128 = self.neg().whole_up_to(0x8000_0000, false, false);
            (-(a as i64)) as i32
        } else {
            proof {
                lemma_units_mag(self);
            }
            self.whole_up_to(i32::MAX as u128, false, false) as i32
        }
    }

    /// The next whole number upwards.
    pub fn ceil_to_u32(self) -> (r: u32)
        ensures
            r == self.ceiling(u32::MAX as int),
    {
        self.whole_up_to(u32::MAX as u128, true, false) as u32
    }

    /// The nearest whole number.
    pub fn round_to_u32(self) -> (r: u32)
        ensures
            r == self.nearest_whole(u32::MAX as int),
    {
        self.whole_up_to(u32::MAX as u128, false, true) as u32
    }

    pub fn round_to_usize(self) -> (r: usize)
        ensures
            r == self.nearest_whole(usize::MAX as int),
    {
        self.whole_up_to(usize::MAX as u128, false, true) as usize
    }
}

proof fn lemma_units_mag(x: Single)
    requires
        x.finite() || x.infinite() || x.nan(),
    ensures
        units(x.mag()) >= 0,
        units(x.mag()) / one_units() >= 0,
{
    lemma_units_step(x.mag());
    lemma_pow2_pos(149);
    lemma_div_pos_is_pos(units(x.mag()), one_units());
}

proof fn lemma_never_negative(x: Single, hi: int)
    requires
        hi >= 0,
    ensures
        x.negative() ==> x.truncated(0, hi) == 0,
        0 <= x.truncated(0, hi) <= hi,
{
    lemma_units_mag(x);
}

} // verus!
