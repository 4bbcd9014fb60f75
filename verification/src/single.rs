//! Single-precision (IEEE 754 binary32) numbers by their bit patterns.
//!
//! Times, opacities and scale factors are single-precision numbers. They are
//! kept here as the 32 bits of their encoding, so that every operation is
//! integer arithmetic whose rounding can be stated and proved.
use crate::rounding;
use crate::rounding::{EXPONENT_STEP, INFINITY_BITS};
use vstd::arithmetic::power2;
use vstd::math;
use vstd::prelude::*;

verus! {

/// The sign bit of an encoding.
pub const SIGN_BIT: u32 = 0x8000_0000;

/// A single-precision number, by its encoding.
#[derive(Clone, Copy, Debug, PartialEq, Eq, Structural)]
pub struct Single {
    pub bits: u32,
}

impl Single {
    /// Whether the sign bit is set.
    pub open spec fn negative(self) -> bool {
        self.bits >= SIGN_BIT
    }

    /// The encoding without its sign bit.
    pub open spec fn unsigned(self) -> int {
        if self.negative() {
            self.bits - SIGN_BIT
        } else {
            self.bits as int
        }
    }

    pub open spec fn is_nan(self) -> bool {
        self.unsigned() > INFINITY_BITS
    }

    pub open spec fn is_infinite(self) -> bool {
        self.unsigned() == INFINITY_BITS
    }

    pub open spec fn is_finite(self) -> bool {
        self.unsigned() < INFINITY_BITS
    }

    /// The number itself, in units of 2^-149.
    pub open spec fn value(self) -> int {
        if self.negative() {
            -rounding::magnitude(self.unsigned())
        } else {
            rounding::magnitude(self.unsigned())
        }
    }

    /// The place of a number among all numbers: less is less, and the two
    /// zeros are equal.
    pub open spec fn rank(self) -> int {
        if self.negative() {
            -self.unsigned()
        } else {
            self.unsigned()
        }
    }

    /// `self <= other`, which is false where either is a NaN.
    pub open spec fn at_most(self, other: Single) -> bool {
        !self.is_nan() && !other.is_nan() && self.rank() <= other.rank()
    }

    /// `self > 0`.
    pub open spec fn positive(self) -> bool {
        !self.is_nan() && self.rank() > 0
    }

    /// `self <= 0`.
    pub open spec fn not_above_zero(self) -> bool {
        !self.is_nan() && self.rank() <= 0
    }

    /// The number with the unsigned encoding `m`, or its negative.
    pub open spec fn with_sign(negative: bool, m: int) -> Single {
        Single {
            bits: (if negative {
                m + SIGN_BIT
            } else {
                m
            }) as u32,
        }
    }

    /// The NaN that invalid operations give.
    pub open spec fn nan() -> Single {
        Single { bits: 0x7fc0_0000 }
    }

    /// The number nearest to `n / d` units of 2^-149, for an `n` of any sign.
    pub open spec fn nearest(n: int, d: int) -> Single {
        if n < 0 {
            Self::with_sign(true, rounding::rounded(-n, d))
        } else {
            Self::with_sign(false, rounding::rounded(n, d))
        }
    }

    /// The number nearest to the integer `i`.
    pub open spec fn of_int(i: int) -> Single {
        Self::nearest(i * power2::pow2(149), 1)
    }

    /// `self - other`.
    pub open spec fn difference(self, other: Single) -> Single {
        if self.is_nan() || other.is_nan() {
            Self::nan()
        } else if self.is_infinite() {
            if other.is_infinite() && self.negative() == other.negative() {
                Self::nan()
            } else {
                self
            }
        } else if other.is_infinite() {
            Self::with_sign(!other.negative(), INFINITY_BITS as int)
        } else if self.value() == other.value() {
            Self::with_sign(self.negative() && !other.negative(), 0)
        } else {
            Self::nearest(self.value() - other.value(), 1)
        }
    }

    /// `self * other`.
    pub open spec fn product(self, other: Single) -> Single {
        let negative = self.negative() != other.negative();
        if self.is_nan() || other.is_nan() {
            Self::nan()
        } else if self.is_infinite() || other.is_infinite() {
            if self.unsigned() == 0 || other.unsigned() == 0 {
                Self::nan()
            } else {
                Self::with_sign(negative, INFINITY_BITS as int)
            }
        } else {
            Self::with_sign(
                negative,
                rounding::rounded(
                    rounding::magnitude(self.unsigned()) * rounding::magnitude(other.unsigned()),
                    power2::pow2(149) as int,
                ),
            )
        }
    }

    /// `self / other`, for finite numbers and a divisor other than zero.
    pub open spec fn quotient(self, other: Single) -> Single {
        Self::with_sign(
            self.negative() != other.negative(),
            rounding::rounded(
                rounding::magnitude(self.unsigned()) * power2::pow2(149),
                rounding::magnitude(other.unsigned()),
            ),
        )
    }

    /// The greater of two numbers, or the one that is not a NaN.
    pub open spec fn greater(self, other: Single) -> Single {
        if self.is_nan() || (!other.is_nan() && self.rank() < other.rank()) {
            other
        } else {
            self
        }
    }

    /// The lesser of two numbers, or the one that is not a NaN.
    pub open spec fn lesser(self, other: Single) -> Single {
        if self.is_nan() || (!other.is_nan() && other.rank() < self.rank()) {
            other
        } else {
            self
        }
    }

    /// The integer part, held to the range from zero to `max`; zero for a NaN.
    pub open spec fn integer_part(self, max: int) -> int {
        let whole = rounding::magnitude(self.unsigned()) / (power2::pow2(149) as int);
        if self.is_nan() || self.negative() {
            0
        } else if whole > max {
            max
        } else {
            whole
        }
    }

    pub fn is_negative(self) -> (r: bool)
        ensures
            r == self.negative(),
    {
        self.bits >= SIGN_BIT
    }

    /// The encoding without its sign bit.
    pub fn unsigned_bits(self) -> (m: u32)
        ensures
            m == self.unsigned(),
            m <= 0x7fff_ffff,
    {
        if self.bits >= SIGN_BIT {
            self.bits - SIGN_BIT
        } else {
            self.bits
        }
    }

    /// The number with the unsigned encoding `m`, or its negative.
    fn signed(negative: bool, m: u32) -> (r: Single)
        requires
            m <= 0x7fff_ffff,
        ensures
            r == Self::with_sign(negative, m as int),
            r.negative() == negative,
            r.unsigned() == m,
    {
        if negative {
            Single { bits: m + SIGN_BIT }
        } else {
            Single { bits: m }
        }
    }

    /// Significand and exponent: the number is `sig * 2^exp` units.
    fn parts(self) -> (r: (u32, u32))
        requires
            self.is_finite(),
        ensures
            r.0 < 0x100_0000,
            r.1 <= 253,
            r.0 >= EXPONENT_STEP || r.1 == 0,
            self.unsigned() == r.1 * EXPONENT_STEP + r.0,
            rounding::magnitude(self.unsigned()) == r.0 * power2::pow2(r.1 as nat),
    {
        let m: u32 = self.unsigned_bits();
        let (sig, exp): (u32, u32) = if m < EXPONENT_STEP {
            (m, 0)
        } else {
            (EXPONENT_STEP + m % EXPONENT_STEP, m / EXPONENT_STEP - 1)
        };
        proof {
            power2::lemma2_to64();
            rounding::lemma_packed(exp as int, sig as int);
        }
        (sig, exp)
    }
}

impl Single {
    /// The number nearest to an integer.
    pub fn from_i64(i: i64) -> (r: Single)
        ensures
            r == Self::of_int(i as int),
    {
        let negative: bool = i < 0;
        let x: u64 = if i < 0 {
            (-(i + 1)) as u64 + 1
        } else {
            i as u64
        };
        let (sig, exp, sticky): (u64, i32, bool) = if x < 0x4000_0000_0000_0000 {
            (x, 149, false)
        } else {
            (x / 4, 151, x % 4 != 0)
        };
        let ghost p: int = power2::pow2(149) as int;
        let ghost n: int = x * p;
        let ghost u: int = power2::pow2(exp as nat) as int;
        proof {
            power2::lemma_pow2_pos(149);
            power2::lemma2_to64();
            power2::lemma_pow2_adds(149, 2);
            power2::lemma_pow2_pos(exp as nat);
            let low: int = (x % 4) as int;
            if exp == 151 {
                assert(n == sig * u + low * p) by (nonlinear_arith)
                    requires
                        n == x * p,
                        x == 4 * sig + low,
                        u == p * 4,
                ;
                assert((sig + 1) * u == sig * u + u) by (nonlinear_arith);
                assert(low > 0 ==> low * p > 0) by (nonlinear_arith)
                    requires
                        p > 0,
                ;
                assert(low == 0 ==> low * p == 0) by (nonlinear_arith);
                assert(low * p < u) by (nonlinear_arith)
                    requires
                        low < 4,
                        p > 0,
                        u == p * 4,
                ;
            }
            assert(x == 0 ==> n == 0) by (nonlinear_arith)
                requires
                    n == x * p,
            ;
            assert(x > 0 ==> n > 0) by (nonlinear_arith)
                requires
                    n == x * p,
                    p > 0,
            ;
            assert(negative ==> i * p == -n) by (nonlinear_arith)
                requires
                    n == x * p,
                    negative ==> i == -x,
            ;
        }
        let m: u32 = rounding::round_scaled(sig, exp, sticky, Ghost(n), Ghost(1), Ghost(u));
        proof {
            rounding::lemma_rounded(n, 1, m as int);
        }
        Self::signed(negative, m)
    }

    /// `self * other`.
    pub fn times(self, other: Single) -> (r: Single)
        ensures
            r == self.product(other),
    {
        let a: u32 = self.unsigned_bits();
        let b: u32 = other.unsigned_bits();
        let negative: bool = self.is_negative() != other.is_negative();
        if a > INFINITY_BITS || b > INFINITY_BITS {
            return Single { bits: 0x7fc0_0000 };
        }
        if a == INFINITY_BITS || b == INFINITY_BITS {
            return if a == 0 || b == 0 {
                Single { bits: 0x7fc0_0000 }
            } else {
                Self::signed(negative, INFINITY_BITS)
            };
        }
        let (sa, ka): (u32, u32) = self.parts();
        let (sb, kb): (u32, u32) = other.parts();
        let ghost n: int = rounding::magnitude(self.unsigned()) * rounding::magnitude(other.unsigned());
        let ghost d: int = power2::pow2(149) as int;
        let ghost u: int = power2::pow2((ka + kb) as nat) as int;
        let exp: i32 = ka as i32 + kb as i32 - 149;
        proof {
            let pa: int = power2::pow2(ka as nat) as int;
            let pb: int = power2::pow2(kb as nat) as int;
            power2::lemma_pow2_adds(ka as nat, kb as nat);
            power2::lemma_pow2_pos(149);
            power2::lemma_pow2_pos((ka + kb) as nat);
            assert((sa * pa) * (sb * pb) == (sa * sb) * (pa * pb)) by (nonlinear_arith);
            if exp >= 0 {
                power2::lemma_pow2_adds(149, exp as nat);
            } else {
                power2::lemma_pow2_adds((ka + kb) as nat, (-exp) as nat);
            }
            assert(sa * sb < 0x1_0000_0000_0000) by (nonlinear_arith)
                requires
                    sa < 0x100_0000,
                    sb < 0x100_0000,
            ;
            assert(0 <= sa * sb) by (nonlinear_arith);
        }
        let sig: u64 = sa as u64 * sb as u64;
        let m: u32 = rounding::round_scaled(sig, exp, false, Ghost(n), Ghost(d), Ghost(u));
        proof {
            rounding::lemma_rounded(n, d, m as int);
        }
        Self::signed(negative, m)
    }

    /// `self / other`, for a dividend that is not subnormal or zero.
    pub fn over(self, other: Single) -> (r: Single)
        requires
            self.is_finite(),
            self.unsigned() >= EXPONENT_STEP,
            other.is_finite(),
            other.unsigned() > 0,
        ensures
            r == self.quotient(other),
    {
        let negative: bool = self.is_negative() != other.is_negative();
        let (sa, ka): (u32, u32) = self.parts();
        let (sb, kb): (u32, u32) = other.parts();
        let ghost n: int = rounding::magnitude(self.unsigned()) * power2::pow2(149);
        let ghost d: int = rounding::magnitude(other.unsigned());
        let ghost u: int = sb * power2::pow2((ka + 111) as nat);
        let exp: i32 = ka as i32 - kb as i32 + 111;
        proof {
            assert(sb > 0) by {
                if kb == 0 {
                    assert(kb * EXPONENT_STEP == 0);
                }
            }
            assert(sa >= EXPONENT_STEP) by {
                if ka == 0 {
                    assert(ka * EXPONENT_STEP == 0);
                }
            }
        }
        let top: u64 = sa as u64 * 0x40_0000_0000;
        let sig: u64 = top / (sb as u64);
        let rest: u64 = top % (sb as u64);
        proof {
            let pa: int = power2::pow2(ka as nat) as int;
            let pb: int = power2::pow2(kb as nat) as int;
            let pu: int = power2::pow2((ka + 111) as nat) as int;
            power2::lemma2_to64_rest();
            power2::lemma_pow2_pos(kb as nat);
            power2::lemma_pow2_pos((ka + 111) as nat);
            // n == top * pu
            power2::lemma_pow2_adds(ka as nat, 149);
            power2::lemma_pow2_adds((ka + 111) as nat, 38);
            assert(power2::pow2(38) == 0x40_0000_0000);
            let p149: int = power2::pow2(149) as int;
            assert(n == top * pu) by (nonlinear_arith)
                requires
                    n == (sa * pa) * p149,
                    pa * p149 == pu * 0x40_0000_0000,
                    top == sa * 0x40_0000_0000,
            ;
            vstd::arithmetic::div_mod::lemma_fundamental_div_mod(top as int, sb as int);
            assert(n == sig * u + rest * pu) by (nonlinear_arith)
                requires
                    n == top * pu,
                    top == sb * sig + rest,
                    u == sb * pu,
            ;
            assert((sig + 1) * u == sig * u + u) by (nonlinear_arith);
            assert(rest * pu < u) by (nonlinear_arith)
                requires
                    rest < sb,
                    u == sb * pu,
                    pu > 0,
            ;
            assert(rest > 0 ==> rest * pu > 0) by (nonlinear_arith)
                requires
                    pu > 0,
            ;
            assert(rest == 0 ==> rest * pu == 0) by (nonlinear_arith);
            assert(u > 0 && d > 0) by (nonlinear_arith)
                requires
                    u == sb * pu,
                    d == sb * pb,
                    sb > 0,
                    pu > 0,
                    pb > 0,
            ;
            if exp >= 0 {
                power2::lemma_pow2_adds(kb as nat, exp as nat);
                vstd::arithmetic::mul::lemma_mul_is_associative(
                    sb as int,
                    pb,
                    power2::pow2(exp as nat) as int,
                );
            } else {
                power2::lemma_pow2_adds((ka + 111) as nat, (-exp) as nat);
                vstd::arithmetic::mul::lemma_mul_is_associative(
                    sb as int,
                    pu,
                    power2::pow2((-exp) as nat) as int,
                );
            }
            assert(sig >= 0x200_0000) by (nonlinear_arith)
                requires
                    top == sb * sig + rest,
                    rest < sb,
                    sb < 0x100_0000,
                    top >= 0x80_0000 * 0x40_0000_0000,
            ;
            assert(sig <= top) by (nonlinear_arith)
                requires
                    top == sb * sig + rest,
                    rest >= 0,
                    sb >= 1,
                    sig >= 0,
            ;
        }
        let m: u32 = rounding::round_scaled(sig, exp, rest != 0, Ghost(n), Ghost(d), Ghost(u));
        proof {
            rounding::lemma_rounded(n, d, m as int);
        }
        Self::signed(negative, m)
    }
}

/// `sig * 2^exp`, or its negative.
spec fn term(negative: bool, sig: int, exp: int) -> int {
    if negative {
        -(sig * power2::pow2(exp as nat))
    } else {
        sig * power2::pow2(exp as nat)
    }
}

/// The sum of two signed terms, rounded; `None` where it is zero.
fn rounded_sum(
    hi_neg: bool,
    hi: u32,
    hi_exp: u32,
    lo_neg: bool,
    lo: u32,
    lo_exp: u32,
) -> (r: Option<(bool, u32)>)
    requires
        hi < 0x100_0000,
        lo < 0x100_0000,
        lo_exp <= hi_exp <= 253,
        hi >= EXPONENT_STEP || hi_exp == 0,
    ensures
        ({
            let v = term(hi_neg, hi as int, hi_exp as int) + term(lo_neg, lo as int, lo_exp as int);
            match r {
                None => v == 0,
                Some((negative, m)) => {
                    &&& v != 0
                    &&& negative == (v < 0)
                    &&& rounding::rounds_to(if v < 0 { -v } else { v }, 1, m as int)
                },
            }
        }),
{
    let shift: u32 = hi_exp - lo_exp;
    let ghost ph: int = power2::pow2(hi_exp as nat) as int;
    let ghost pl: int = power2::pow2(lo_exp as nat) as int;
    let ghost hv: int = hi * ph;
    let ghost lv: int = lo * pl;
    let ghost v: int = term(hi_neg, hi as int, hi_exp as int) + term(
        lo_neg,
        lo as int,
        lo_exp as int,
    );
    proof {
        power2::lemma2_to64();
        power2::lemma2_to64_rest();
        power2::lemma_pow2_pos(hi_exp as nat);
        power2::lemma_pow2_pos(lo_exp as nat);
        assert(hv >= 0 && lv >= 0) by (nonlinear_arith)
            requires
                hv == hi * ph,
                lv == lo * pl,
                ph > 0,
                pl > 0,
        ;
    }
    if shift <= 37 {
        let ghost ps: int = power2::pow2(shift as nat) as int;
        proof {
            power2::lemma_pow2_adds(lo_exp as nat, shift as nat);
            power2::lemma_pow2_pos(shift as nat);
            if shift < 37 {
                power2::lemma_pow2_strictly_increases(shift as nat, 37);
            }
            assert(hi * ps < 0x2000_0000_0000_0000) by (nonlinear_arith)
                requires
                    hi < 0x100_0000,
                    0 < ps <= 0x20_0000_0000,
            ;
            vstd::bits::lemma_u64_shl_is_mul(hi as u64, shift as u64);
        }
        let top: u64 = (hi as u64) << (shift as u64);
        proof {
            assert(hv == top * pl) by (nonlinear_arith)
                requires
                    hv == hi * ph,
                    ph == pl * ps,
                    top == hi * ps,
            ;
        }
        let (negative, sig): (bool, u64) = if hi_neg == lo_neg {
            (hi_neg, top + lo as u64)
        } else if top >= lo as u64 {
            (hi_neg, top - lo as u64)
        } else {
            (lo_neg, lo as u64 - top)
        };
        let ghost n: int = sig * pl;
        proof {
            assert((top + lo) * pl == hv + lv) by (nonlinear_arith)
                requires
                    hv == top * pl,
                    lv == lo * pl,
            ;
            assert((top - lo) * pl == hv - lv) by (nonlinear_arith)
                requires
                    hv == top * pl,
                    lv == lo * pl,
            ;
            assert((lo - top) * pl == lv - hv) by (nonlinear_arith)
                requires
                    hv == top * pl,
                    lv == lo * pl,
            ;
            assert(sig > 0 ==> n > 0) by (nonlinear_arith)
                requires
                    n == sig * pl,
                    pl > 0,
            ;
            assert(sig == 0 ==> n == 0) by (nonlinear_arith)
                requires
                    n == sig * pl,
            ;
        }
        if sig == 0 {
            return None;
        }
        let m: u32 = rounding::round_scaled(sig, lo_exp as i32, false, Ghost(n), Ghost(1), Ghost(pl));
        Some((negative, m))
    } else if lo == 0 {
        proof {
            assert(lv == 0) by (nonlinear_arith)
                requires
                    lv == lo * pl,
                    lo == 0,
            ;
            assert(hv > 0) by (nonlinear_arith)
                requires
                    hv == hi * ph,
                    hi > 0,
                    ph > 0,
            ;
        }
        let m: u32 = rounding::round_scaled(hi as u64, hi_exp as i32, false, Ghost(hv), Ghost(1), Ghost(ph));
        Some((hi_neg, m))
    } else {
        // The smaller term is less than one of the units kept of the larger.
        let top: u64 = hi as u64 * 0x4000;
        let exp: u32 = hi_exp - 14;
        let ghost u: int = power2::pow2(exp as nat) as int;
        let same: bool = hi_neg == lo_neg;
        let sig: u64 = if same {
            top
        } else {
            top - 1
        };
        let ghost n: int = if same {
            hv + lv
        } else {
            hv - lv
        };
        proof {
            power2::lemma_pow2_pos(exp as nat);
            power2::lemma_pow2_adds(exp as nat, 14);
            power2::lemma_pow2_adds(24, lo_exp as nat);
            if 24 + lo_exp < exp {
                power2::lemma_pow2_strictly_increases((24 + lo_exp) as nat, exp as nat);
            }
            assert(hv == top * u) by (nonlinear_arith)
                requires
                    hv == hi * ph,
                    ph == u * 0x4000,
                    top == hi * 0x4000,
            ;
            assert(0 < lv < u) by (nonlinear_arith)
                requires
                    lv == lo * pl,
                    0 < lo < 0x100_0000,
                    pl > 0,
                    0x100_0000 * pl <= u,
            ;
            assert((sig + 1) * u == sig * u + u) by (nonlinear_arith);
            assert(n > 0) by (nonlinear_arith)
                requires
                    n > sig * u,
                    sig > 0,
                    u > 0,
            ;
        }
        let m: u32 = rounding::round_scaled(sig, exp as i32, true, Ghost(n), Ghost(1), Ghost(u));
        Some((hi_neg, m))
    }
}

impl Single {
    /// `self - other`.
    pub fn minus(self, other: Single) -> (r: Single)
        ensures
            r == self.difference(other),
    {
        let a: u32 = self.unsigned_bits();
        let b: u32 = other.unsigned_bits();
        if a > INFINITY_BITS || b > INFINITY_BITS {
            return Single { bits: 0x7fc0_0000 };
        }
        if a == INFINITY_BITS {
            return if b == INFINITY_BITS && self.is_negative() == other.is_negative() {
                Single { bits: 0x7fc0_0000 }
            } else {
                self
            };
        }
        if b == INFINITY_BITS {
            return Self::signed(!other.is_negative(), INFINITY_BITS);
        }
        let (sa, ka): (u32, u32) = self.parts();
        let (sb, kb): (u32, u32) = other.parts();
        let sum: Option<(bool, u32)> = if ka >= kb {
            rounded_sum(self.is_negative(), sa, ka, !other.is_negative(), sb, kb)
        } else {
            rounded_sum(!other.is_negative(), sb, kb, self.is_negative(), sa, ka)
        };
        let ghost v: int = self.value() - other.value();
        match sum {
            None => Self::signed(self.is_negative() && !other.is_negative(), 0),
            Some((negative, m)) => {
                proof {
                    rounding::lemma_rounded(if v < 0 { -v } else { v }, 1, m as int);
                }
                Self::signed(negative, m)
            },
        }
    }

    /// Whether `self <= other`; false where either is a NaN.
    pub fn le(self, other: Single) -> (r: bool)
        ensures
            r == self.at_most(other),
    {
        let a: u32 = self.unsigned_bits();
        let b: u32 = other.unsigned_bits();
        if a > INFINITY_BITS || b > INFINITY_BITS {
            false
        } else if self.is_negative() {
            if other.is_negative() {
                a >= b
            } else {
                true
            }
        } else if other.is_negative() {
            a == 0 && b == 0
        } else {
            a <= b
        }
    }

    /// Whether `self > 0`.
    pub fn is_positive(self) -> (r: bool)
        ensures
            r == self.positive(),
    {
        0 < self.bits && self.bits <= INFINITY_BITS
    }

    /// Whether `self <= 0`.
    pub fn is_not_above_zero(self) -> (r: bool)
        ensures
            r == self.not_above_zero(),
    {
        self.bits == 0 || (self.bits >= SIGN_BIT && self.bits - SIGN_BIT <= INFINITY_BITS)
    }

    /// The number with its sign bit set.
    pub fn negative_of_abs(self) -> (r: Single)
        ensures
            r == Self::with_sign(true, self.unsigned()),
    {
        Self::signed(true, self.unsigned_bits())
    }

    /// The greater of two numbers, or the one that is not a NaN.
    pub fn max(self, other: Single) -> (r: Single)
        ensures
            r == self.greater(other),
    {
        if self.unsigned_bits() > INFINITY_BITS {
            other
        } else if other.unsigned_bits() > INFINITY_BITS || other.le(self) {
            self
        } else {
            other
        }
    }

    /// The lesser of two numbers, or the one that is not a NaN.
    pub fn min(self, other: Single) -> (r: Single)
        ensures
            r == self.lesser(other),
    {
        if self.unsigned_bits() > INFINITY_BITS {
            other
        } else if other.unsigned_bits() > INFINITY_BITS || self.le(other) {
            self
        } else {
            other
        }
    }

    /// The integer part, held to the range from zero to `max`; zero for a NaN.
    pub fn to_integer(self, max: u32) -> (r: u32)
        ensures
            r == self.integer_part(max as int),
    {
        if self.is_negative() || self.unsigned_bits() > INFINITY_BITS {
            return 0;
        }
        let ghost p: int = power2::pow2(149) as int;
        proof {
            power2::lemma_pow2_pos(149);
            power2::lemma2_to64();
            power2::lemma2_to64_rest();
        }
        if self.unsigned_bits() == INFINITY_BITS {
            proof {
                rounding::lemma_packed(254, 0x80_0000);
                power2::lemma_pow2_adds(149, 105);
                power2::lemma_pow2_strictly_increases(32, 105);
                lemma_whole_shifted(0x80_0000, 254);
            }
            return max;
        }
        let (sig, exp): (u32, u32) = self.parts();
        let whole: u64 = if exp >= 149 {
            proof {
                lemma_whole_shifted(sig as int, exp as int);
            }
            if exp >= 149 + 32 {
                proof {
                    let ps: int = power2::pow2((exp - 149) as nat) as int;
                    if exp > 149 + 32 {
                        power2::lemma_pow2_strictly_increases(32, (exp - 149) as nat);
                    }
                    assert(sig * ps >= 0x1_0000_0000) by (nonlinear_arith)
                        requires
                            ps >= 0x1_0000_0000,
                            sig >= 1,
                    ;
                }
                return max;
            }
            let shift: u64 = (exp - 149) as u64;
            proof {
                let ps: int = power2::pow2(shift as nat) as int;
                power2::lemma_pow2_strictly_increases(shift as nat, 32);
                assert(sig * ps < 0x100_0000_0000_0000) by (nonlinear_arith)
                    requires
                        0 <= ps < 0x1_0000_0000,
                        sig < 0x100_0000,
                ;
                vstd::bits::lemma_u64_shl_is_mul(sig as u64, shift);
            }
            (sig as u64) << shift
        } else {
            let shift: u64 = (149 - exp) as u64;
            proof {
                lemma_whole_dropped(sig as int, exp as int);
            }
            if shift >= 64 {
                proof {
                    if shift > 64 {
                        power2::lemma_pow2_strictly_increases(64, shift as nat);
                    }
                    vstd::arithmetic::div_mod::lemma_basic_div(
                        sig as int,
                        power2::pow2(shift as nat) as int,
                    );
                }
                0
            } else {
                proof {
                    vstd::bits::lemma_u64_shr_is_div(sig as u64, shift);
                }
                (sig as u64) >> shift
            }
        };
        if whole > max as u64 {
            max
        } else {
            whole as u32
        }
    }
}

proof fn lemma_whole_shifted(sig: int, exp: int)
    requires
        sig >= 0,
        exp >= 149,
    ensures
        (sig * power2::pow2(exp as nat)) / (power2::pow2(149) as int) == sig * power2::pow2(
            (exp - 149) as nat,
        ),
{
    let p: int = power2::pow2(149) as int;
    let ps: int = power2::pow2((exp - 149) as nat) as int;
    power2::lemma_pow2_pos(149);
    power2::lemma_pow2_adds((exp - 149) as nat, 149);
    assert(sig * (ps * p) == (sig * ps) * p) by (nonlinear_arith);
    vstd::arithmetic::div_mod::lemma_div_by_multiple(sig * ps, p);
}

proof fn lemma_whole_dropped(sig: int, exp: int)
    requires
        sig >= 0,
        0 <= exp < 149,
    ensures
        (sig * power2::pow2(exp as nat)) / (power2::pow2(149) as int) == sig / (power2::pow2(
            (149 - exp) as nat,
        ) as int),
{
    let pe: int = power2::pow2(exp as nat) as int;
    let pd: int = power2::pow2((149 - exp) as nat) as int;
    power2::lemma_pow2_pos(exp as nat);
    power2::lemma_pow2_pos((149 - exp) as nat);
    power2::lemma_pow2_adds((149 - exp) as nat, exp as nat);
    vstd::arithmetic::mul::lemma_mul_is_commutative(sig, pe);
    vstd::arithmetic::mul::lemma_mul_is_commutative(pd, pe);
    vstd::arithmetic::div_mod::lemma_div_multiples_vanish_quotient(pe, sig, pd);
}

/// Comparing encodings compares the numbers.
pub proof fn lemma_rank_orders_values(a: Single, b: Single)
    requires
        !a.is_nan(),
        !b.is_nan(),
    ensures
        a.rank() <= b.rank() <==> a.value() <= b.value(),
        a.rank() < b.rank() <==> a.value() < b.value(),
{
    let x: int = a.unsigned();
    let y: int = b.unsigned();
    if x < y {
        rounding::lemma_magnitude_increases(x, y);
    } else if y < x {
        rounding::lemma_magnitude_increases(y, x);
    }
    if x > 0 {
        rounding::lemma_magnitude_increases(0, x);
    }
    if y > 0 {
        rounding::lemma_magnitude_increases(0, y);
    }
}

/// A sign and an unsigned encoding can be read back.
pub proof fn lemma_with_sign(negative: bool, m: int)
    requires
        0 <= m <= 0x7fff_ffff,
    ensures
        Single::with_sign(negative, m).negative() == negative,
        Single::with_sign(negative, m).unsigned() == m,
{
}

/// A positive integer below 2^24 has an encoding of its own, at or above that
/// of one.
proof fn lemma_normalized(i: int, k: int, s: int) -> (c: int)
    requires
        i > 0,
        0 <= s <= 23,
        k == i * power2::pow2(s as nat),
        power2::pow2(s as nat) <= k < 0x100_0000,
    ensures
        0x3f80_0000 <= c < INFINITY_BITS,
        rounding::magnitude(c) == i * power2::pow2(149),
    decreases 23 - s,
{
    power2::lemma2_to64();
    if k >= 0x80_0000 {
        let e: int = 149 - s;
        rounding::lemma_packed(e, k);
        power2::lemma_pow2_adds(s as nat, e as nat);
        vstd::arithmetic::mul::lemma_mul_is_associative(
            i,
            power2::pow2(s as nat) as int,
            power2::pow2(e as nat) as int,
        );
        e * EXPONENT_STEP + k
    } else {
        power2::lemma_pow2_unfold((s + 1) as nat);
        let p: int = power2::pow2(s as nat) as int;
        assert(2 * (i * p) == i * (2 * p)) by (nonlinear_arith);
        lemma_normalized(i, 2 * k, s + 1)
    }
}

/// Integers up to 2^24 are represented exactly.
pub proof fn lemma_of_int_exact(i: int)
    requires
        0 < i < 0x100_0000,
    ensures
        !Single::of_int(i).negative(),
        0x3f80_0000 <= Single::of_int(i).unsigned() < INFINITY_BITS,
        Single::of_int(i).value() == i * power2::pow2(149),
{
    power2::lemma2_to64();
    power2::lemma_pow2_pos(149);
    let p: int = power2::pow2(149) as int;
    assert(i * p > 0) by (nonlinear_arith)
        requires
            i > 0,
            p > 0,
    ;
    assert(i * 1 == i);
    let c: int = lemma_normalized(i, i, 0);
    assert(rounding::magnitude(c) * 1 == i * p);
    rounding::lemma_rounded_exact(i * p, 1, c);
    lemma_with_sign(false, c);
}

/// Larger integers stay between the powers of two that enclose them.
pub proof fn lemma_of_int_range(i: int)
    requires
        1 <= i <= 0x1_0000_0000,
    ensures
        !Single::of_int(i).negative(),
        0x3f80_0000 <= Single::of_int(i).unsigned() <= 0x4f80_0000,
        Single::of_int(i).unsigned() == rounding::rounded(i * power2::pow2(149), 1),
{
    power2::lemma2_to64();
    power2::lemma2_to64_rest();
    power2::lemma_pow2_pos(149);
    let p: int = power2::pow2(149) as int;
    assert(p <= i * p <= 0x1_0000_0000 * p) by (nonlinear_arith)
        requires
            1 <= i <= 0x1_0000_0000,
            p > 0,
    ;
    rounding::lemma_packed(126, 0x80_0000);
    power2::lemma_pow2_adds(23, 126);
    rounding::lemma_packed(158, 0x80_0000);
    power2::lemma_pow2_adds(23, 158);
    power2::lemma_pow2_adds(32, 149);
    rounding::lemma_rounded_at_least(i * p, 1, 0x3f80_0000);
    rounding::lemma_rounded_at_most(i * p, 1, 0x4f80_0000);
    lemma_with_sign(false, rounding::rounded(i * p, 1));
}

/// No integer rounds to a NaN.
pub proof fn lemma_of_int_is_a_number(i: int)
    ensures
        !Single::of_int(i).is_nan(),
{
    let n: int = i * power2::pow2(149);
    if n < 0 {
        rounding::lemma_rounded_rounds(-n, 1);
        lemma_with_sign(true, rounding::rounded(-n, 1));
    } else {
        rounding::lemma_rounded_rounds(n, 1);
        lemma_with_sign(false, rounding::rounded(n, 1));
    }
}

/// The number one.
pub proof fn lemma_one()
    ensures
        Single::of_int(1) == (Single { bits: 0x3f80_0000 }),
        rounding::magnitude(0x3f80_0000) == power2::pow2(149),
{
    power2::lemma2_to64();
    power2::lemma_pow2_pos(149);
    rounding::lemma_packed(126, 0x80_0000);
    power2::lemma_pow2_adds(23, 126);
    rounding::lemma_rounded_exact(power2::pow2(149) as int, 1, 0x3f80_0000);
}

/// A rounded difference is zero or less exactly where the first number is no
/// more than the second: no difference is so small that it is lost. (Two
/// infinities of one sign have no difference.)
pub proof fn lemma_difference_sign(a: Single, b: Single)
    requires
        !a.is_nan(),
        !b.is_nan(),
        !(a.is_infinite() && b.is_infinite() && a.negative() == b.negative()),
    ensures
        !a.difference(b).is_nan(),
        a.difference(b).not_above_zero() <==> a.rank() <= b.rank(),
{
    lemma_rank_orders_values(a, b);
    if a.is_finite() && b.is_finite() {
        let n: int = a.value() - b.value();
        if n > 0 {
            rounding::lemma_packed(0, 1);
            power2::lemma2_to64();
            rounding::lemma_rounded_at_least(n, 1, 1);
            rounding::lemma_rounded_rounds(n, 1);
            lemma_with_sign(false, rounding::rounded(n, 1));
        } else if n < 0 {
            rounding::lemma_rounded_rounds(-n, 1);
            lemma_with_sign(true, rounding::rounded(-n, 1));
        } else {
            lemma_with_sign(a.negative() && !b.negative(), 0);
        }
    } else {
        lemma_with_sign(!b.negative(), INFINITY_BITS as int);
    }
}

/// Taking off what is not negative does not make a number larger.
pub proof fn lemma_difference_not_larger(a: Single, b: Single)
    requires
        !a.is_nan(),
        !b.is_nan(),
        b.rank() >= 0,
        !(a.is_infinite() && b.is_infinite() && a.negative() == b.negative()),
    ensures
        a.difference(b).rank() <= a.rank(),
{
    lemma_difference_sign(a, b);
    if a.is_finite() && b.is_finite() {
        let n: int = a.value() - b.value();
        lemma_zero_rank(a);
        lemma_zero_rank(b);
        if n > 0 {
            assert(!a.negative());
            rounding::lemma_rounded_at_most(n, 1, a.unsigned());
            rounding::lemma_rounded_rounds(n, 1);
            lemma_with_sign(false, rounding::rounded(n, 1));
        } else if n < 0 {
            rounding::lemma_rounded_rounds(-n, 1);
            lemma_with_sign(true, rounding::rounded(-n, 1));
            if a.negative() {
                rounding::lemma_rounded_at_least(-n, 1, a.unsigned());
            }
        } else {
            lemma_with_sign(a.negative() && !b.negative(), 0);
        }
    } else {
        lemma_with_sign(!b.negative(), INFINITY_BITS as int);
    }
}

/// A number has the sign of its rank.
proof fn lemma_zero_rank(a: Single)
    requires
        !a.is_nan(),
    ensures
        a.rank() > 0 <==> a.value() > 0,
        a.rank() < 0 <==> a.value() < 0,
{
    if a.unsigned() > 0 {
        rounding::lemma_magnitude_increases(0, a.unsigned());
    }
}

/// A product of numbers without a sign has none.
pub proof fn lemma_product_sign(a: Single, b: Single)
    requires
        !a.negative(),
        !b.negative(),
    ensures
        !a.product(b).negative(),
{
    power2::lemma_pow2_pos(149);
    if a.is_finite() && b.is_finite() {
        let x: int = rounding::magnitude(a.unsigned());
        let y: int = rounding::magnitude(b.unsigned());
        lemma_zero_rank(a);
        lemma_zero_rank(b);
        assert(x * y >= 0) by (nonlinear_arith)
            requires
                x >= 0,
                y >= 0,
        ;
        rounding::lemma_rounded_rounds(x * y, power2::pow2(149) as int);
        lemma_with_sign(false, rounding::rounded(x * y, power2::pow2(149) as int));
    }
}

/// What a bit pattern stands for: the highest bit is the sign, the next eight
/// the exponent and the rest the significand, which has one more leading bit
/// where the exponent is not zero. Patterns with all bits of the exponent set
/// are no finite numbers.
pub proof fn bits_are_sign_exponent_significand(negative: bool, exponent: int, significand: int)
    requires
        0 <= exponent < 256,
        0 <= significand < 0x80_0000,
    ensures
        ({
            let x = Single {
                bits: ((if negative {
                    0x8000_0000int
                } else {
                    0int
                }) + exponent * 0x80_0000 + significand) as u32,
            };
            let size = if exponent == 0 {
                significand
            } else {
                (0x80_0000 + significand) * power2::pow2((exponent - 1) as nat)
            };
            &&& x.negative() == negative
            &&& x.unsigned() == exponent * 0x80_0000 + significand
            &&& x.is_finite() == (exponent < 255)
            &&& x.is_infinite() == (exponent == 255 && significand == 0)
            &&& x.is_nan() == (exponent == 255 && significand != 0)
            &&& x.value() == if negative {
                -size
            } else {
                size
            }
        }),
{
    if exponent == 0 {
        power2::lemma2_to64();
        rounding::lemma_packed(0, significand);
    } else {
        rounding::lemma_packed(exponent - 1, 0x80_0000 + significand);
    }
}

/// Numbers are ordered by what they stand for, and a NaN is in no order.
pub proof fn order_is_by_value(a: Single, b: Single)
    ensures
        a.at_most(b) <==> !a.is_nan() && !b.is_nan() && a.value() <= b.value(),
        a.positive() <==> !a.is_nan() && a.value() > 0,
        a.not_above_zero() <==> !a.is_nan() && a.value() <= 0,
{
    if !a.is_nan() {
        lemma_zero_rank(a);
        if !b.is_nan() {
            lemma_rank_orders_values(a, b);
        }
    }
}

/// The greater of two numbers is one of them and no less than either, the
/// lesser no more; a NaN gives way to a number.
pub proof fn greater_and_lesser_are_bounds(a: Single, b: Single)
    ensures
        a.greater(b) == a || a.greater(b) == b,
        a.lesser(b) == a || a.lesser(b) == b,
        !a.is_nan() && !b.is_nan() ==> {
            &&& a.value() <= a.greater(b).value()
            &&& b.value() <= a.greater(b).value()
            &&& a.lesser(b).value() <= a.value()
            &&& a.lesser(b).value() <= b.value()
        },
        a.is_nan() ==> a.greater(b) == b && a.lesser(b) == b,
        b.is_nan() && !a.is_nan() ==> a.greater(b) == a && a.lesser(b) == a,
{
    if !a.is_nan() && !b.is_nan() {
        lemma_rank_orders_values(a, b);
        lemma_rank_orders_values(b, a);
    }
}

/// The integer part of a number is the largest integer up to it, within the
/// range from zero to `max`.
pub proof fn integer_part_is_cut_off(x: Single, max: int)
    requires
        max >= 0,
    ensures
        0 <= x.integer_part(max) <= max,
        x.is_nan() || x.value() <= 0 ==> x.integer_part(max) == 0,
        !x.is_nan() && x.integer_part(max) > 0 ==> x.integer_part(max) * power2::pow2(149)
            <= x.value(),
        !x.is_nan() && x.integer_part(max) < max ==> x.value() < (x.integer_part(max) + 1)
            * power2::pow2(149),
{
    let t: int = power2::pow2(149) as int;
    power2::lemma_pow2_pos(149);
    if !x.is_nan() {
        let v: int = rounding::magnitude(x.unsigned());
        if x.unsigned() > 0 {
            rounding::lemma_magnitude_increases(0, x.unsigned());
        }
        let whole: int = v / t;
        vstd::arithmetic::div_mod::lemma_fundamental_div_mod(v, t);
        assert(whole * t <= v < (whole + 1) * t) by (nonlinear_arith)
            requires
                v == t * whole + v % t,
                0 <= v % t < t,
        ;
        vstd::arithmetic::div_mod::lemma_div_pos_is_pos(v, t);
        let k: int = x.integer_part(max);
        assert(0 <= k ==> (k + 1) * t >= t) by (nonlinear_arith)
            requires
                t > 0,
        ;
        if 0 < k && k <= whole {
            assert(k * t <= whole * t) by (nonlinear_arith)
                requires
                    k <= whole,
                    t > 0,
            ;
        }
    }
}

/// A rounded number is no farther from what it was rounded from than any other
/// (an infinity stands for 2^128 here), and of two that are equally near it is
/// the even one.
proof fn lemma_signed_nearest(negative: bool, n: int, d: int, c: Single)
    requires
        n >= 0,
        d > 0,
        !c.is_nan(),
    ensures
        ({
            let r = Single::with_sign(negative, rounding::rounded(n, d));
            let v = if negative {
                -n
            } else {
                n
            };
            &&& r.negative() == negative
            &&& r.is_finite() || r.is_infinite()
            &&& math::abs(r.value() * d - v) <= math::abs(c.value() * d - v)
            &&& math::abs(r.value() * d - v) == math::abs(c.value() * d - v) ==> c.value() == r.value()
                || r.bits % 2 == 0
        }),
{
    rounding::lemma_rounded_rounds(n, d);
    let m: int = rounding::rounded(n, d);
    lemma_with_sign(negative, m);
    let r: Single = Single::with_sign(negative, m);
    let x: int = rounding::magnitude(m);
    let y: int = rounding::magnitude(c.unsigned());
    rounding::nearest_is_nearest(n, d, c.unsigned());
    rounding::nearest_is_nearest(n, d, 0);
    assert(r.bits % 2 == m % 2);
    if c.unsigned() > 0 {
        rounding::lemma_magnitude_increases(0, c.unsigned());
    }
    assert(0 * d == 0 && (-x) * d == -(x * d) && (-y) * d == -(y * d)) by (nonlinear_arith);
    assert(y * d >= 0) by (nonlinear_arith)
        requires
            y >= 0,
            d > 0,
    ;
    assert(y > 0 ==> y * d > 0) by (nonlinear_arith)
        requires
            d > 0,
    ;
}

/// A difference is the number nearest to the exact difference; it is infinite
/// where 2^128 would be.
pub proof fn difference_is_nearest(a: Single, b: Single, c: Single)
    requires
        a.is_finite(),
        b.is_finite(),
        !c.is_nan(),
    ensures
        ({
            let r = a.difference(b);
            let v = a.value() - b.value();
            &&& !r.is_nan()
            &&& math::abs(r.value() - v) <= math::abs(c.value() - v)
            &&& math::abs(r.value() - v) == math::abs(c.value() - v) ==> c.value() == r.value()
                || r.bits % 2 == 0
            &&& v > 0 ==> !r.negative()
            &&& v < 0 ==> r.negative()
            &&& v == 0 ==> r.value() == 0 && r.negative() == (a.negative() && !b.negative())
        }),
{
    let v: int = a.value() - b.value();
    if v > 0 {
        lemma_signed_nearest(false, v, 1, c);
    } else if v < 0 {
        lemma_signed_nearest(true, -v, 1, c);
    } else {
        lemma_with_sign(a.negative() && !b.negative(), 0);
    }
}

/// A difference with a NaN is one, and so is that of two infinities of one
/// sign; any other infinity outweighs the other number.
pub proof fn difference_of_what_is_not_finite(a: Single, b: Single)
    requires
        !a.is_finite() || !b.is_finite(),
    ensures
        a.is_nan() || b.is_nan() ==> a.difference(b).is_nan(),
        a.is_infinite() && b.is_infinite() && a.negative() == b.negative() ==> a.difference(
            b,
        ).is_nan(),
        a.is_infinite() && !b.is_nan() && (b.is_finite() || a.negative() != b.negative())
            ==> a.difference(b) == a,
        a.is_finite() && b.is_infinite() ==> a.difference(b).is_infinite() && a.difference(
            b,
        ).negative() != b.negative(),
{
    lemma_with_sign(!b.negative(), INFINITY_BITS as int);
}

/// A product is the number nearest to the exact product; it is infinite where
/// 2^128 would be.
pub proof fn product_is_nearest(a: Single, b: Single, c: Single)
    requires
        a.is_finite(),
        b.is_finite(),
        !c.is_nan(),
    ensures
        ({
            let r = a.product(b);
            let t = power2::pow2(149) as int;
            let v = a.value() * b.value();
            &&& !r.is_nan()
            &&& r.negative() == (a.negative() != b.negative())
            &&& math::abs(r.value() * t - v) <= math::abs(c.value() * t - v)
            &&& math::abs(r.value() * t - v) == math::abs(c.value() * t - v) ==> c.value() == r.value()
                || r.bits % 2 == 0
        }),
{
    let x: int = rounding::magnitude(a.unsigned());
    let y: int = rounding::magnitude(b.unsigned());
    lemma_magnitude_not_negative(a);
    lemma_magnitude_not_negative(b);
    power2::lemma_pow2_pos(149);
    assert(x * y >= 0) by (nonlinear_arith)
        requires
            x >= 0,
            y >= 0,
    ;
    assert((-x) * y == -(x * y) && x * (-y) == -(x * y) && (-x) * (-y) == x * y)
        by (nonlinear_arith);
    lemma_signed_nearest(a.negative() != b.negative(), x * y, power2::pow2(149) as int, c);
}

/// A product with a NaN is one, and so is that of an infinity and zero; any
/// other product with an infinity is infinite.
pub proof fn product_of_what_is_not_finite(a: Single, b: Single)
    requires
        !a.is_finite() || !b.is_finite(),
    ensures
        a.is_nan() || b.is_nan() ==> a.product(b).is_nan(),
        a.is_infinite() && b.unsigned() == 0 || a.unsigned() == 0 && b.is_infinite() ==> a.product(
            b,
        ).is_nan(),
        !a.is_nan() && !b.is_nan() && a.unsigned() != 0 && b.unsigned() != 0 ==> a.product(
            b,
        ).is_infinite() && a.product(b).negative() == (a.negative() != b.negative()),
{
    lemma_with_sign(a.negative() != b.negative(), INFINITY_BITS as int);
}

/// A quotient is the number nearest to the exact quotient; it is infinite where
/// 2^128 would be. (Both sides are multiplied by the divisor.)
pub proof fn quotient_is_nearest(a: Single, b: Single, c: Single)
    requires
        a.is_finite(),
        b.is_finite(),
        b.value() != 0,
        !c.is_nan(),
    ensures
        ({
            let r = a.quotient(b);
            let v = a.value() * power2::pow2(149);
            &&& !r.is_nan()
            &&& r.negative() == (a.negative() != b.negative())
            &&& math::abs(r.value() * b.value() - v) <= math::abs(c.value() * b.value() - v)
            &&& math::abs(r.value() * b.value() - v) == math::abs(c.value() * b.value() - v)
                ==> c.value() == r.value() || r.bits % 2 == 0
        }),
{
    let t: int = power2::pow2(149) as int;
    let x: int = rounding::magnitude(a.unsigned());
    let y: int = rounding::magnitude(b.unsigned());
    lemma_magnitude_not_negative(a);
    lemma_magnitude_not_negative(b);
    power2::lemma_pow2_pos(149);
    assert(x * t >= 0) by (nonlinear_arith)
        requires
            x >= 0,
            t > 0,
    ;
    assert((-x) * t == -(x * t)) by (nonlinear_arith);
    let r: Single = a.quotient(b);
    let p: int = r.value();
    let q: int = c.value();
    assert(p * (-y) == -(p * y) && q * (-y) == -(q * y)) by (nonlinear_arith);
    lemma_signed_nearest(a.negative() != b.negative(), x * t, y, c);
}

proof fn lemma_magnitude_not_negative(a: Single)
    ensures
        rounding::magnitude(a.unsigned()) >= 0,
{
    if a.unsigned() > 0 {
        rounding::lemma_magnitude_increases(0, a.unsigned());
    }
}

/// An integer becomes the number nearest to it.
pub proof fn of_int_is_nearest(i: int, c: Single)
    requires
        !c.is_nan(),
    ensures
        ({
            let r = Single::of_int(i);
            let v = i * power2::pow2(149);
            &&& !r.is_nan()
            &&& r.negative() == (i < 0)
            &&& math::abs(r.value() - v) <= math::abs(c.value() - v)
            &&& math::abs(r.value() - v) == math::abs(c.value() - v) ==> c.value() == r.value()
                || r.bits % 2 == 0
        }),
{
    let t: int = power2::pow2(149) as int;
    power2::lemma_pow2_pos(149);
    let v: int = i * t;
    assert(i < 0 <==> v < 0) by (nonlinear_arith)
        requires
            v == i * t,
            t > 0,
    ;
    if v < 0 {
        lemma_signed_nearest(true, -v, 1, c);
    } else {
        lemma_signed_nearest(false, v, 1, c);
    }
}

/// A sign and an unsigned encoding make up a number of that size and sign.
pub proof fn sign_and_encoding_make_a_number(x: Single, negative: bool)
    ensures
        Single::with_sign(negative, x.unsigned()).negative() == negative,
        Single::with_sign(negative, x.unsigned()).unsigned() == x.unsigned(),
        negative == x.negative() ==> Single::with_sign(negative, x.unsigned()) == x,
        negative != x.negative() ==> Single::with_sign(negative, x.unsigned()).value()
            == -x.value(),
{
    lemma_with_sign(negative, x.unsigned());
}

} // verus!
