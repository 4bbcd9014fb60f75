//! Rounding to single precision (IEEE 754 binary32, to nearest, ties to even),
//! on unsigned encodings.
use vstd::arithmetic::power2;
use vstd::prelude::*;

verus! {

/// The encoding of positive infinity; encodings above it, sign bit aside, are
/// the NaNs.
pub const INFINITY_BITS: u32 = 0x7f80_0000;

/// One unit in the exponent field of an encoding.
pub const EXPONENT_STEP: u32 = 0x80_0000;

/// The number that the unsigned encoding `m` stands for, in units of 2^-149
/// (the smallest positive number). For the encoding of infinity it is 2^128,
/// the number that would come next if the exponent had no bound.
pub open spec fn magnitude(m: int) -> int {
    if m < EXPONENT_STEP {
        m
    } else {
        (EXPONENT_STEP + m % (EXPONENT_STEP as int)) * power2::pow2(
            (m / (EXPONENT_STEP as int) - 1) as nat,
        )
    }
}

/// Whether `m` is the unsigned encoding nearest to `n / d` units of 2^-149,
/// the even one of two that are equally near. Infinity takes part as if it
/// were the number 2^128, which is how rounding decides on overflow.
pub open spec fn rounds_to(n: int, d: int, m: int) -> bool {
    &&& 0 <= m <= INFINITY_BITS
    &&& m > 0 ==> {
        &&& (magnitude(m - 1) + magnitude(m)) * d <= 2 * n
        &&& (magnitude(m - 1) + magnitude(m)) * d == 2 * n ==> m % 2 == 0
    }
    &&& m < INFINITY_BITS ==> {
        &&& 2 * n <= (magnitude(m) + magnitude(m + 1)) * d
        &&& 2 * n == (magnitude(m) + magnitude(m + 1)) * d ==> m % 2 == 0
    }
}

/// The encoding of `e` in the exponent field with significand `k` stands for
/// `k * 2^e`, whether `k` is subnormal, normal or just past the last normal.
pub proof fn lemma_packed(e: int, k: int)
    requires
        0 <= e,
        0 <= k <= 0x100_0000,
        k >= EXPONENT_STEP || e == 0,
    ensures
        magnitude(e * EXPONENT_STEP + k) == k * power2::pow2(e as nat),
{
    let step: int = EXPONENT_STEP as int;
    let m: int = e * step + k;
    power2::lemma2_to64();
    if e == 0 && k < step {
        assert(m == k);
        assert(k * 1 == k);
    } else if k < 2 * step {
        assert(m == (e + 1) * step + (k - step)) by (nonlinear_arith)
            requires
                m == e * step + k,
        ;
        vstd::arithmetic::div_mod::lemma_fundamental_div_mod_converse(m, step, e + 1, k - step);
        assert(m >= step) by (nonlinear_arith)
            requires
                m == (e + 1) * step + (k - step),
                e >= 0,
                k >= step,
                step > 0,
        ;
    } else {
        assert(m == (e + 2) * step + 0) by (nonlinear_arith)
            requires
                m == e * step + k,
                k == 2 * step,
        ;
        vstd::arithmetic::div_mod::lemma_fundamental_div_mod_converse(m, step, e + 2, 0);
        assert(m >= step) by (nonlinear_arith)
            requires
                m == (e + 2) * step,
                e >= 0,
                step > 0,
        ;
        power2::lemma_pow2_unfold((e + 1) as nat);
        let p: int = power2::pow2(e as nat) as int;
        assert(step * (2 * p) == (2 * step) * p) by (nonlinear_arith);
    }
}

/// Every unsigned encoding is a significand in an exponent field.
proof fn lemma_unpacked(m: int) -> (r: (int, int))
    requires
        0 <= m,
    ensures
        r.0 >= 0,
        0 <= r.1 < 0x100_0000,
        r.1 >= EXPONENT_STEP || r.0 == 0,
        m == r.0 * EXPONENT_STEP + r.1,
        magnitude(m) == r.1 * power2::pow2(r.0 as nat),
        magnitude(m + 1) == (r.1 + 1) * power2::pow2(r.0 as nat),
{
    let step: int = EXPONENT_STEP as int;
    let (e, k): (int, int) = if m < step {
        (0, m)
    } else {
        (m / step - 1, step + m % step)
    };
    vstd::arithmetic::div_mod::lemma_fundamental_div_mod(m, step);
    assert(m == e * step + k) by {
        if m >= step {
            let q: int = m / step;
            assert((q - 1) * step + (step + m % step) == step * q + m % step) by (nonlinear_arith);
        }
    }
    lemma_packed(e, k);
    lemma_packed(e, k + 1);
    (e, k)
}

/// Encodings order the numbers that they stand for.
pub proof fn lemma_magnitude_increases(a: int, b: int)
    requires
        0 <= a < b,
    ensures
        0 <= magnitude(a) < magnitude(b),
    decreases b - a,
{
    let (e, k): (int, int) = lemma_unpacked(b - 1);
    let p: int = power2::pow2(e as nat) as int;
    power2::lemma_pow2_pos(e as nat);
    assert((k + 1) * p == k * p + p && k * p >= 0) by (nonlinear_arith)
        requires
            k >= 0,
            p > 0,
    ;
    if a < b - 1 {
        lemma_magnitude_increases(a, b - 1);
    }
}

/// At most one encoding is the nearest.
pub proof fn lemma_rounds_to_unique(n: int, d: int, a: int, b: int)
    requires
        d > 0,
        rounds_to(n, d, a),
        rounds_to(n, d, b),
    ensures
        a == b,
{
    lemma_rounds_to_not_above(n, d, a, b);
    lemma_rounds_to_not_above(n, d, b, a);
}

proof fn lemma_rounds_to_not_above(n: int, d: int, a: int, b: int)
    requires
        d > 0,
        rounds_to(n, d, a),
        rounds_to(n, d, b),
    ensures
        b <= a,
{
    let lo: int = magnitude(a) + magnitude(a + 1);
    let hi: int = magnitude(b - 1) + magnitude(b);
    if a + 1 < b {
        lemma_magnitude_increases(a, b - 1);
        lemma_magnitude_increases(a + 1, b);
        assert(lo * d < hi * d) by (nonlinear_arith)
            requires
                lo < hi,
                d > 0,
        ;
    }
}

/// What is below half of the smallest number rounds to zero.
proof fn lemma_rounds_to_zero(n: int, d: int)
    requires
        0 <= 2 * n < d,
    ensures
        rounds_to(n, d, 0),
{
    let s: int = magnitude(0) + magnitude(1);
    assert(s * d == d) by (nonlinear_arith)
        requires
            s == 1,
    ;
}

/// The encodings on both sides of `n / d`: `k` units `u` of `2^e` times `d` fit
/// into `n` and `k + 1` do not.
spec fn encloses(n: int, d: int, e: int, k: int, u: int) -> bool {
    &&& d > 0
    &&& e >= 0
    &&& 0 <= k < 0x100_0000
    &&& k >= EXPONENT_STEP || e == 0
    &&& u == d * power2::pow2(e as nat)
    &&& k * u <= n < (k + 1) * u
}

/// What the two encodings around `n / d` stand for.
proof fn lemma_enclosing(n: int, d: int, e: int, k: int, u: int)
    requires
        encloses(n, d, e, k, u),
    ensures
        0 <= e * EXPONENT_STEP + k,
        (e * EXPONENT_STEP + k) % 2 == k % 2,
        magnitude(e * EXPONENT_STEP + k) * d <= n,
        n < magnitude(e * EXPONENT_STEP + k + 1) * d,
        (magnitude(e * EXPONENT_STEP + k) + magnitude(e * EXPONENT_STEP + k + 1)) * d == (2 * k
            + 1) * u,
{
    let step: int = EXPONENT_STEP as int;
    let p: int = power2::pow2(e as nat) as int;
    let m: int = e * step + k;
    assert(e * step == 2 * (e * 0x40_0000) && e * step >= 0) by (nonlinear_arith)
        requires
            step == 0x80_0000,
            e >= 0,
    ;
    lemma_packed(e, k);
    lemma_packed(e, k + 1);
    let a: int = magnitude(m);
    let b: int = magnitude(m + 1);
    assert(a * d == k * u && b * d == (k + 1) * u && (a + b) * d == (2 * k + 1) * u)
        by (nonlinear_arith)
        requires
            a == k * p,
            b == (k + 1) * p,
            u == d * p,
    ;
}

/// The lower of two neighbours is the nearest where `n / d` is no more than
/// half way up.
proof fn lemma_settles_down(n: int, d: int, m: int)
    requires
        d > 0,
        0 <= m < INFINITY_BITS,
        magnitude(m) * d <= n,
        2 * n <= (magnitude(m) + magnitude(m + 1)) * d,
        2 * n == (magnitude(m) + magnitude(m + 1)) * d ==> m % 2 == 0,
    ensures
        rounds_to(n, d, m),
{
    if m > 0 {
        lemma_magnitude_increases(m - 1, m);
        let s: int = magnitude(m - 1) + magnitude(m);
        let a: int = magnitude(m);
        assert(s * d < 2 * n) by (nonlinear_arith)
            requires
                s < 2 * a,
                a * d <= n,
                d > 0,
        ;
    }
}

/// The upper of two neighbours is the nearest where `n / d` is at least half
/// way up.
proof fn lemma_settles_up(n: int, d: int, m: int)
    requires
        d > 0,
        0 <= m < INFINITY_BITS,
        n < magnitude(m + 1) * d,
        (magnitude(m) + magnitude(m + 1)) * d <= 2 * n,
        2 * n == (magnitude(m) + magnitude(m + 1)) * d ==> m % 2 == 1,
    ensures
        rounds_to(n, d, m + 1),
{
    if m + 1 < INFINITY_BITS {
        lemma_magnitude_increases(m + 1, m + 2);
        let s: int = magnitude(m + 1) + magnitude(m + 2);
        let b: int = magnitude(m + 1);
        assert(2 * n < s * d) by (nonlinear_arith)
            requires
                2 * b < s,
                n < b * d,
                d > 0,
        ;
    }
}

/// Infinity is the nearest from there on.
proof fn lemma_settles_at_infinity(n: int, d: int, m: int)
    requires
        d > 0,
        m >= INFINITY_BITS,
        magnitude(m) * d <= n,
    ensures
        rounds_to(n, d, INFINITY_BITS as int),
{
    let inf: int = INFINITY_BITS as int;
    if inf < m {
        lemma_magnitude_increases(inf, m);
    }
    lemma_magnitude_increases(inf - 1, inf);
    let s: int = magnitude(inf - 1) + magnitude(inf);
    let a: int = magnitude(m);
    assert(s * d < 2 * n) by (nonlinear_arith)
        requires
            s < 2 * a,
            a * d <= n,
            d > 0,
    ;
}

/// The last step of every rounding; `up` tells which neighbour is nearer.
proof fn lemma_settled(n: int, d: int, e: int, k: int, u: int, up: bool)
    requires
        encloses(n, d, e, k, u),
        up ==> (2 * k + 1) * u <= 2 * n,
        up && (2 * k + 1) * u == 2 * n ==> k % 2 == 1,
        !up ==> 2 * n <= (2 * k + 1) * u,
        !up && (2 * k + 1) * u == 2 * n ==> k % 2 == 0,
    ensures
        e * EXPONENT_STEP + k >= INFINITY_BITS ==> rounds_to(n, d, INFINITY_BITS as int),
        e * EXPONENT_STEP + k < INFINITY_BITS ==> rounds_to(
            n,
            d,
            e * EXPONENT_STEP + k + (if up { 1int } else { 0int }),
        ),
{
    let m: int = e * EXPONENT_STEP + k;
    lemma_enclosing(n, d, e, k, u);
    if m >= INFINITY_BITS {
        lemma_settles_at_infinity(n, d, m);
    } else if up {
        lemma_settles_up(n, d, m);
    } else {
        lemma_settles_down(n, d, m);
    }
}

/// The number of bits up to the highest one that is set.
fn bit_length(x: u64) -> (len: u32)
    requires
        x < 0x4000_0000_0000_0000,
    ensures
        len <= 62,
        x < power2::pow2(len as nat),
        x > 0 ==> len > 0 && power2::pow2((len - 1) as nat) <= x,
{
    let mut p: u64 = 1;
    let mut len: u32 = 0;
    proof {
        power2::lemma2_to64();
    }
    while p <= x
        invariant
            x < 0x4000_0000_0000_0000,
            p == power2::pow2(len as nat),
            p <= 0x4000_0000_0000_0000,
            len <= 62,
            x > 0 ==> len > 0 && power2::pow2((len - 1) as nat) <= x || len == 0,
        decreases 0x4000_0000_0000_0000 - p,
    {
        proof {
            power2::lemma_pow2_unfold((len + 1) as nat);
            power2::lemma2_to64();
            power2::lemma2_to64_rest();
            if len >= 62 {
                if len > 62 {
                    power2::lemma_pow2_strictly_increases(62, len as nat);
                }
            }
        }
        p = p * 2;
        len = len + 1;
    }
    len
}

/// Whether `u` is `2^exp` times `d`.
pub open spec fn is_unit(u: int, d: int, exp: int) -> bool {
    if exp >= 0 {
        u == d * power2::pow2(exp as nat)
    } else {
        d == u * power2::pow2((-exp) as nat)
    }
}

/// A unit is a power of two of finer units.
proof fn lemma_unit_split(u: int, d: int, exp: int, drop: int)
    requires
        is_unit(u, d, exp),
        exp + drop >= 0,
    ensures
        drop >= 0 ==> d * power2::pow2((exp + drop) as nat) == u * power2::pow2(drop as nat),
        drop < 0 ==> u == (d * power2::pow2((exp + drop) as nat)) * power2::pow2((-drop) as nat),
{
    let e: nat = (exp + drop) as nat;
    if drop < 0 {
        power2::lemma_pow2_adds(e, (-drop) as nat);
        vstd::arithmetic::mul::lemma_mul_is_associative(
            d,
            power2::pow2(e) as int,
            power2::pow2((-drop) as nat) as int,
        );
    } else if exp >= 0 {
        power2::lemma_pow2_adds(exp as nat, drop as nat);
        vstd::arithmetic::mul::lemma_mul_is_associative(
            d,
            power2::pow2(exp as nat) as int,
            power2::pow2(drop as nat) as int,
        );
    } else {
        power2::lemma_pow2_adds((-exp) as nat, e);
        vstd::arithmetic::mul::lemma_mul_is_associative(
            u,
            power2::pow2((-exp) as nat) as int,
            power2::pow2(e) as int,
        );
    }
}

/// The unsigned encoding nearest to `n / d`, of which the code holds the
/// leading bits: `sig` units of `2^exp`, and with `sticky` a part of one more.
pub(crate) fn round_scaled(
    sig: u64,
    exp: i32,
    sticky: bool,
    Ghost(n): Ghost<int>,
    Ghost(d): Ghost<int>,
    Ghost(u): Ghost<int>,
) -> (m: u32)
    requires
        sig < 0x4000_0000_0000_0000,
        -1000 <= exp <= 400,
        d > 0,
        u > 0,
        is_unit(u, d, exp as int),
        sticky ==> sig >= 0x200_0000,
        sticky ==> sig * u < n < (sig + 1) * u,
        !sticky ==> n == sig * u,
    ensures
        rounds_to(n, d, m as int),
{
    proof {
        power2::lemma2_to64();
        power2::lemma2_to64_rest();
    }
    if sig == 0 {
        proof {
            lemma_rounds_to_zero(n, d);
        }
        return 0;
    }
    let len: i32 = bit_length(sig) as i32;
    let drop: i32 = if len - 24 >= -exp {
        len - 24
    } else {
        -exp
    };
    let e: i32 = exp + drop;
    let ghost ulp: int = d * power2::pow2(e as nat);
    proof {
        lemma_unit_split(u, d, exp as int, drop as int);
        power2::lemma_pow2_pos(e as nat);
    }
    let (k, up): (u64, bool) = if drop <= 0 {
        let shift: u64 = (-drop) as u64;
        let ghost p: int = power2::pow2(shift as nat) as int;
        proof {
            power2::lemma_pow2_adds(len as nat, shift as nat);
            power2::lemma_pow2_adds((len - 1) as nat, shift as nat);
            let top: nat = (len + shift) as nat;
            if top < 24 {
                power2::lemma_pow2_strictly_increases(top, 24);
            }
            let pl: int = power2::pow2(len as nat) as int;
            assert(sig * p < pl * p) by (nonlinear_arith)
                requires
                    sig < pl,
                    p > 0,
            ;
            let pl1: int = power2::pow2((len - 1) as nat) as int;
            assert(sig * p >= pl1 * p) by (nonlinear_arith)
                requires
                    sig >= pl1,
                    p > 0,
            ;
            vstd::bits::lemma_u64_shl_is_mul(sig, shift);
            assert(n == (sig * p) * ulp) by (nonlinear_arith)
                requires
                    n == sig * u,
                    u == ulp * p,
            ;
        }
        let k: u64 = sig << shift;
        proof {
            assert((k + 1) * ulp == k * ulp + ulp) by (nonlinear_arith);
            assert((2 * k + 1) * ulp == 2 * (k * ulp) + ulp) by (nonlinear_arith);
            assert(ulp > 0) by (nonlinear_arith)
                requires
                    d > 0,
                    ulp == d * power2::pow2(e as nat),
                    power2::pow2(e as nat) > 0,
            ;
        }
        (k, false)
    } else if drop > 62 {
        proof {
            // All of it is below half of the smallest number.
            let p: int = power2::pow2(drop as nat) as int;
            assert(e == 0);
            if drop > 63 {
                power2::lemma_pow2_strictly_increases(63, drop as nat);
            }
            assert((sig + 1) * u == sig * u + u) by (nonlinear_arith);
            assert(2 * n < d) by (nonlinear_arith)
                requires
                    n < (sig + 1) * u,
                    sig + 1 <= 0x4000_0000_0000_0000,
                    d == u * p,
                    p >= 0x8000_0000_0000_0000,
                    u > 0,
            ;
            lemma_rounds_to_zero(n, d);
        }
        return 0;
    } else {
        let shift: u64 = drop as u64;
        proof {
            vstd::bits::lemma_u64_pow2_no_overflow(shift as nat);
            vstd::bits::lemma_u64_shl_is_mul(1, shift);
            power2::lemma_pow2_unfold(shift as nat);
            power2::lemma_pow2_pos(shift as nat);
        }
        let p: u64 = 1u64 << shift;
        let k: u64 = sig / p;
        let low: u64 = sig % p;
        let half: u64 = p / 2;
        let up: bool = low > half || (low == half && (sticky || k % 2 == 1));
        proof {
            assert(p == 2 * half);
            vstd::arithmetic::div_mod::lemma_fundamental_div_mod(sig as int, p as int);
            assert(sig == k * p + low) by (nonlinear_arith)
                requires
                    sig == p * k + low,
            ;
            assert(ulp == u * p);
            lemma_dropped(n, u, sig as int, sticky, k as int, low as int, half as int, ulp);
            lemma_kept_range(sig as int, len as int, shift as int, p as int, k as int, low as int);
        }
        (k, up)
    };
    proof {
        lemma_settled(n, d, e as int, k as int, ulp, up);
    }
    let m: u64 = (e as u64) * (EXPONENT_STEP as u64) + k;
    if m >= INFINITY_BITS as u64 {
        INFINITY_BITS
    } else if up {
        (m + 1) as u32
    } else {
        m as u32
    }
}

/// What the dropped bits say of the distance to the two neighbours.
proof fn lemma_dropped(
    n: int,
    u: int,
    sig: int,
    sticky: bool,
    k: int,
    low: int,
    half: int,
    ulp: int,
)
    requires
        u > 0,
        half > 0,
        0 <= low < 2 * half,
        sig == k * (2 * half) + low,
        ulp == u * (2 * half),
        sticky ==> sig * u < n < (sig + 1) * u,
        !sticky ==> n == sig * u,
    ensures
        k * ulp <= n < (k + 1) * ulp,
        low > half ==> (2 * k + 1) * ulp < 2 * n,
        low < half ==> 2 * n < (2 * k + 1) * ulp,
        low == half && sticky ==> (2 * k + 1) * ulp < 2 * n,
        low == half && !sticky ==> (2 * k + 1) * ulp == 2 * n,
{
    let hu: int = half * u;
    let lu: int = low * u;
    assert(ulp == 2 * hu) by (nonlinear_arith)
        requires
            ulp == u * (2 * half),
            hu == half * u,
    ;
    assert(sig * u == k * ulp + lu) by (nonlinear_arith)
        requires
            sig == k * (2 * half) + low,
            ulp == u * (2 * half),
            lu == low * u,
    ;
    assert((sig + 1) * u == sig * u + u) by (nonlinear_arith);
    assert((k + 1) * ulp == k * ulp + ulp) by (nonlinear_arith);
    assert((2 * k + 1) * ulp == 2 * (k * ulp) + ulp) by (nonlinear_arith);
    assert(0 <= lu) by (nonlinear_arith)
        requires
            low >= 0,
            u > 0,
            lu == low * u,
    ;
    assert(lu + u <= ulp) by (nonlinear_arith)
        requires
            low + 1 <= 2 * half,
            u > 0,
            lu == low * u,
            ulp == u * (2 * half),
    ;
    if low > half {
        assert(lu >= hu + u) by (nonlinear_arith)
            requires
                low >= half + 1,
                u > 0,
                lu == low * u,
                hu == half * u,
        ;
    } else if low < half {
        assert(lu + u <= hu) by (nonlinear_arith)
            requires
                low + 1 <= half,
                u > 0,
                lu == low * u,
                hu == half * u,
        ;
    }
}

/// How many bits stay when `shift` of `len` are dropped.
proof fn lemma_kept_range(sig: int, len: int, shift: int, p: int, k: int, low: int)
    requires
        0 < len,
        0 <= shift,
        shift >= len - 24,
        p == power2::pow2(shift as nat),
        power2::pow2((len - 1) as nat) <= sig < power2::pow2(len as nat),
        sig == k * p + low,
        0 <= low < p,
        k >= 0,
    ensures
        k < 0x100_0000,
        shift == len - 24 ==> k >= EXPONENT_STEP,
{
    power2::lemma2_to64();
    power2::lemma_pow2_adds(24, shift as nat);
    if len < 24 + shift {
        power2::lemma_pow2_strictly_increases(len as nat, (24 + shift) as nat);
    }
    assert(k < 0x100_0000) by (nonlinear_arith)
        requires
            k * p + low < 0x100_0000 * p,
            low >= 0,
            p > 0,
    ;
    if shift == len - 24 {
        power2::lemma_pow2_adds(23, shift as nat);
        assert(k >= 0x80_0000) by (nonlinear_arith)
            requires
                k * p + low >= 0x80_0000 * p,
                low < p,
                p > 0,
        ;
    }
}

/// The encoding nearest to `n / d` units of 2^-149.
pub open spec fn rounded(n: int, d: int) -> int {
    choose|m: int| rounds_to(n, d, m)
}

/// The nearest encoding is the one that any rounding finds.
pub proof fn lemma_rounded(n: int, d: int, m: int)
    requires
        d > 0,
        rounds_to(n, d, m),
    ensures
        rounded(n, d) == m,
{
    lemma_rounds_to_unique(n, d, m, rounded(n, d));
}

/// Some encoding is the nearest, among those up to `b` at least where `n / d`
/// is below the next one.
proof fn lemma_nearest_up_to(n: int, d: int, b: int) -> (m: int)
    requires
        n >= 0,
        d > 0,
        0 <= b <= INFINITY_BITS,
        b < INFINITY_BITS ==> n < magnitude(b + 1) * d,
    ensures
        rounds_to(n, d, m),
    decreases b,
{
    if b == 0 {
        assert(magnitude(0) * d == 0) by (nonlinear_arith)
            requires
                magnitude(0) == 0,
        ;
    }
    if magnitude(b) * d > n {
        lemma_nearest_up_to(n, d, b - 1)
    } else if b == INFINITY_BITS {
        lemma_settles_at_infinity(n, d, b);
        b
    } else {
        let middle: int = (magnitude(b) + magnitude(b + 1)) * d;
        if 2 * n < middle || (2 * n == middle && b % 2 == 0) {
            lemma_settles_down(n, d, b);
            b
        } else {
            lemma_settles_up(n, d, b);
            b + 1
        }
    }
}

/// Everything that is not negative has a nearest encoding.
pub proof fn lemma_rounded_rounds(n: int, d: int)
    requires
        n >= 0,
        d > 0,
    ensures
        rounds_to(n, d, rounded(n, d)),
        0 <= rounded(n, d) <= INFINITY_BITS,
{
    let m: int = lemma_nearest_up_to(n, d, INFINITY_BITS as int);
    lemma_rounded(n, d, m);
}

/// Rounding does not cross an encoding from below.
pub proof fn lemma_rounded_at_most(n: int, d: int, c: int)
    requires
        n >= 0,
        d > 0,
        0 <= c <= INFINITY_BITS,
        n <= magnitude(c) * d,
    ensures
        rounded(n, d) <= c,
{
    lemma_rounded_rounds(n, d);
    let m: int = rounded(n, d);
    if m > c {
        lemma_magnitude_increases(c, m);
        if c < m - 1 {
            lemma_magnitude_increases(c, m - 1);
        }
        let s: int = magnitude(m - 1) + magnitude(m);
        assert(s * d > 2 * (magnitude(c) * d)) by (nonlinear_arith)
            requires
                s > 2 * magnitude(c),
                d > 0,
        ;
    }
}

/// Rounding does not cross an encoding from above.
pub proof fn lemma_rounded_at_least(n: int, d: int, c: int)
    requires
        d > 0,
        0 <= c <= INFINITY_BITS,
        magnitude(c) * d <= n,
    ensures
        rounded(n, d) >= c,
{
    if c > 0 {
        lemma_magnitude_increases(0, c);
    }
    assert(magnitude(c) * d >= 0) by (nonlinear_arith)
        requires
            magnitude(c) >= 0,
            d > 0,
    ;
    lemma_rounded_rounds(n, d);
    let m: int = rounded(n, d);
    if m < c {
        lemma_magnitude_increases(m, c);
        if m + 1 < c {
            lemma_magnitude_increases(m + 1, c);
        }
        let s: int = magnitude(m) + magnitude(m + 1);
        assert(s * d < 2 * (magnitude(c) * d)) by (nonlinear_arith)
            requires
                s < 2 * magnitude(c),
                d > 0,
        ;
    }
}

/// What an encoding stands for rounds to that encoding.
pub proof fn lemma_rounded_exact(n: int, d: int, c: int)
    requires
        d > 0,
        0 <= c <= INFINITY_BITS,
        n == magnitude(c) * d,
    ensures
        rounded(n, d) == c,
{
    if c > 0 {
        lemma_magnitude_increases(0, c);
    }
    assert(magnitude(c) * d >= 0) by (nonlinear_arith)
        requires
            magnitude(c) >= 0,
            d > 0,
    ;
    lemma_rounded_at_most(n, d, c);
    lemma_rounded_at_least(n, d, c);
}

/// Neighbours among normal numbers differ by less than one part in 2^23.
proof fn lemma_gap(m: int)
    requires
        m >= EXPONENT_STEP,
    ensures
        0x80_0000 * (magnitude(m + 1) - magnitude(m)) <= magnitude(m),
{
    let (e, k): (int, int) = lemma_unpacked(m);
    let p: int = power2::pow2(e as nat) as int;
    power2::lemma_pow2_pos(e as nat);
    if e == 0 {
        assert(e * EXPONENT_STEP == 0);
    }
    assert((k + 1) * p - k * p == p) by (nonlinear_arith);
    assert(0x80_0000 * p <= k * p) by (nonlinear_arith)
        requires
            k >= 0x80_0000,
            p > 0,
    ;
}

/// Rounding to a normal number adds at most one part in 2^24 - 1.
pub proof fn lemma_rounded_not_far_above(n: int, d: int)
    requires
        n >= 0,
        d > 0,
        rounded(n, d) > EXPONENT_STEP,
    ensures
        0xff_ffff * (magnitude(rounded(n, d)) * d) <= 0x100_0000 * n,
{
    lemma_rounded_rounds(n, d);
    let m: int = rounded(n, d);
    let a: int = magnitude(m - 1);
    let b: int = magnitude(m);
    lemma_gap(m - 1);
    lemma_magnitude_increases(m - 1, m);
    assert(0xff_ffff * (b * d) <= 0x80_0000 * ((a + b) * d)) by (nonlinear_arith)
        requires
            0x80_0000 * (b - a) <= b,
            d > 0,
    ;
}

/// Rounding to a finite normal number takes off at most one part in 2^24 + 1.
pub proof fn lemma_rounded_not_far_below(n: int, d: int)
    requires
        n >= 0,
        d > 0,
        EXPONENT_STEP <= rounded(n, d) < INFINITY_BITS,
    ensures
        0x100_0000 * n <= 0x100_0001 * (magnitude(rounded(n, d)) * d),
{
    lemma_rounded_rounds(n, d);
    let m: int = rounded(n, d);
    let a: int = magnitude(m);
    let b: int = magnitude(m + 1);
    lemma_gap(m);
    assert(0x80_0000 * ((a + b) * d) <= 0x100_0001 * (a * d)) by (nonlinear_arith)
        requires
            0x80_0000 * (b - a) <= a,
            d > 0,
    ;
}

/// The rounded encoding is no farther from `n / d` than any other encoding
/// `c`, and where `c` is as near, the rounded one is even.
pub proof fn nearest_is_nearest(n: int, d: int, c: int)
    requires
        n >= 0,
        d > 0,
        0 <= c <= INFINITY_BITS,
    ensures
        ({
            let x = magnitude(rounded(n, d)) * d;
            let y = magnitude(c) * d;
            let near = if x < n {
                n - x
            } else {
                x - n
            };
            let far = if y < n {
                n - y
            } else {
                y - n
            };
            &&& 0 <= rounded(n, d) <= INFINITY_BITS
            &&& near <= far
            &&& near == far && c != rounded(n, d) ==> rounded(n, d) % 2 == 0
        }),
{
    lemma_rounded_rounds(n, d);
    let m: int = rounded(n, d);
    let x: int = magnitude(m);
    let y: int = magnitude(c);
    if c < m {
        lemma_magnitude_increases(c, m);
        let z: int = magnitude(m - 1);
        if c < m - 1 {
            lemma_magnitude_increases(c, m - 1);
        }
        assert((z + x) * d == z * d + x * d) by (nonlinear_arith);
        assert(y * d <= z * d && y * d < x * d) by (nonlinear_arith)
            requires
                y <= z,
                y < x,
                d > 0,
        ;
    } else if m < c {
        lemma_magnitude_increases(m, c);
        let z: int = magnitude(m + 1);
        if m + 1 < c {
            lemma_magnitude_increases(m + 1, c);
        }
        assert((x + z) * d == x * d + z * d) by (nonlinear_arith);
        assert(z * d <= y * d && x * d < y * d) by (nonlinear_arith)
            requires
                z <= y,
                x < y,
                d > 0,
        ;
    }
}

} // verus!
