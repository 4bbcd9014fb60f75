//! The size of a preview thumbnail: an image scaled down, where it has to be,
//! to the box that a card reserves for it.
use crate::rounding;
use crate::single::Single;
use vstd::arithmetic::power2;
use vstd::prelude::*;

verus! {

/// The box that a thumbnail fits into, in logical pixels.
pub const THUMB_MAX_W: u32 = 100;

pub const THUMB_MAX_H: u32 = 76;

/// The factor by which an image of `w` by `h` pixels is scaled: the lesser of
/// what its width and what its height allow, and never more than one.
pub open spec fn scale(w: int, h: int) -> Single {
    Single::of_int(THUMB_MAX_W as int).quotient(Single::of_int(w)).lesser(
        Single::of_int(THUMB_MAX_H as int).quotient(Single::of_int(h)),
    ).lesser(Single::of_int(1))
}

/// A side of `side` pixels, scaled: the integer part, and at least one pixel.
pub open spec fn scaled_side(side: int, factor: Single) -> int {
    let whole = Single::of_int(side).product(factor).integer_part(u32::MAX as int);
    if whole < 1 {
        1
    } else {
        whole
    }
}

/// The size of the thumbnail of an image of `width` by `height` pixels.
pub fn thumbnail_size(width: u32, height: u32) -> (size: (u32, u32))
    requires
        width >= 1,
        height >= 1,
    ensures
        size.0 == scaled_side(width as int, scale(width as int, height as int)),
        size.1 == scaled_side(height as int, scale(width as int, height as int)),
{
    let w: Single = Single::from_i64(width as i64);
    let h: Single = Single::from_i64(height as i64);
    proof {
        crate::single::lemma_of_int_range(width as int);
        crate::single::lemma_of_int_range(height as int);
        crate::single::lemma_of_int_range(THUMB_MAX_W as int);
        crate::single::lemma_of_int_range(THUMB_MAX_H as int);
    }
    let by_width: Single = Single::from_i64(THUMB_MAX_W as i64).over(w);
    let by_height: Single = Single::from_i64(THUMB_MAX_H as i64).over(h);
    let factor: Single = by_width.min(by_height).min(Single::from_i64(1));
    let tw: u32 = w.times(factor).to_integer(u32::MAX);
    let th: u32 = h.times(factor).to_integer(u32::MAX);
    (if tw < 1 { 1 } else { tw }, if th < 1 { 1 } else { th })
}

/// What a limit of `limit` pixels makes of a side of `side` pixels.
proof fn lemma_allowed(limit: int, side: int)
    requires
        1 <= limit < 0x100_0000,
        1 <= side <= u32::MAX,
    ensures
        ({
            let s = Single::of_int(side);
            let f = Single::of_int(limit).quotient(s);
            let t = power2::pow2(149) as int;
            &&& !f.negative()
            &&& rounding::EXPONENT_STEP < f.unsigned() < rounding::INFINITY_BITS
            &&& f.unsigned() == rounding::rounded(
                limit * t * t,
                rounding::magnitude(s.unsigned()),
            )
            &&& 0xff_ffff * (rounding::magnitude(f.unsigned()) * rounding::magnitude(s.unsigned()))
                <= 0x100_0000 * (limit * t * t)
        }),
{
    let t: int = power2::pow2(149) as int;
    let s: Single = Single::of_int(side);
    let l: Single = Single::of_int(limit);
    power2::lemma_pow2_pos(149);
    power2::lemma2_to64();
    power2::lemma2_to64_rest();
    crate::single::lemma_of_int_exact(limit);
    crate::single::lemma_of_int_range(side);
    let d: int = rounding::magnitude(s.unsigned());
    let n: int = limit * t * t;
    // The side is at least one and at most 2^32.
    rounding::lemma_packed(126, 0x80_0000);
    power2::lemma_pow2_adds(23, 126);
    rounding::lemma_packed(158, 0x80_0000);
    power2::lemma_pow2_adds(23, 158);
    power2::lemma_pow2_adds(32, 149);
    if 0x3f80_0000 < s.unsigned() {
        rounding::lemma_magnitude_increases(0x3f80_0000, s.unsigned());
    }
    if s.unsigned() < 0x4f80_0000 {
        rounding::lemma_magnitude_increases(s.unsigned(), 0x4f80_0000);
    }
    assert(t <= d <= 0x1_0000_0000 * t);
    let c: int = l.unsigned();
    assert(rounding::magnitude(c) == limit * t);
    assert(n > 0 && n <= (limit * t) * d) by (nonlinear_arith)
        requires
            n == limit * t * t,
            limit >= 1,
            t > 0,
            d >= t,
    ;
    rounding::lemma_rounded_at_most(n, d, c);
    let least: int = rounding::EXPONENT_STEP + 1;
    power2::lemma_pow2_adds(64, 85);
    assert(rounding::magnitude(least) == least) by {
        rounding::lemma_packed(0, least);
    }
    power2::lemma_pow2_pos(85);
    assert(least * d <= n) by (nonlinear_arith)
        requires
            least == 0x80_0001,
            d <= 0x1_0000_0000 * t,
            n == limit * t * t,
            limit >= 1,
            t >= 0x1_0000_0000_0000_0000,
    ;
    rounding::lemma_rounded_at_least(n, d, least);
    rounding::lemma_rounded_not_far_above(n, d);
    crate::single::lemma_with_sign(false, rounding::rounded(n, d));
}

/// The scale factor is positive, at most one, and at most what either side
/// allows.
proof fn lemma_scale(w: int, h: int)
    requires
        1 <= w <= u32::MAX,
        1 <= h <= u32::MAX,
    ensures
        !scale(w, h).negative(),
        rounding::EXPONENT_STEP < scale(w, h).unsigned() <= 0x3f80_0000,
        scale(w, h).unsigned() <= Single::of_int(THUMB_MAX_W as int).quotient(
            Single::of_int(w),
        ).unsigned(),
        scale(w, h).unsigned() <= Single::of_int(THUMB_MAX_H as int).quotient(
            Single::of_int(h),
        ).unsigned(),
{
    lemma_allowed(THUMB_MAX_W as int, w);
    lemma_allowed(THUMB_MAX_H as int, h);
    crate::single::lemma_one();
}

/// A side scaled by no more than its limit allows stays within the limit.
proof fn lemma_side_within(limit: int, half: int, side: int, factor: Single)
    requires
        1 <= limit <= 1000,
        0 < half < rounding::INFINITY_BITS,
        rounding::magnitude(half) == (2 * limit + 1) * power2::pow2(148),
        1 <= side <= u32::MAX,
        !factor.negative(),
        factor.unsigned() <= Single::of_int(limit).quotient(Single::of_int(side)).unsigned(),
    ensures
        1 <= scaled_side(side, factor) <= limit,
{
    let s: Single = Single::of_int(side);
    let f: Single = Single::of_int(limit).quotient(s);
    let t: int = power2::pow2(149) as int;
    let t2: int = power2::pow2(148) as int;
    power2::lemma_pow2_pos(148);
    power2::lemma_pow2_unfold(149);
    lemma_allowed(limit, side);
    crate::single::lemma_of_int_range(side);
    let a: int = rounding::magnitude(s.unsigned());
    let b: int = rounding::magnitude(factor.unsigned());
    let g: int = rounding::magnitude(f.unsigned());
    if factor.unsigned() < f.unsigned() {
        rounding::lemma_magnitude_increases(factor.unsigned(), f.unsigned());
    }
    if factor.unsigned() > 0 {
        rounding::lemma_magnitude_increases(0, factor.unsigned());
    }
    rounding::lemma_magnitude_increases(0, s.unsigned());
    let n: int = a * b;
    let r: int = t2 * t;
    assert(0 <= n <= a * g && a * g == g * a) by (nonlinear_arith)
        requires
            n == a * b,
            0 <= b <= g,
            a >= 0,
    ;
    assert(limit * t * t == 2 * (limit * r)) by (nonlinear_arith)
        requires
            t == 2 * t2,
            r == t2 * t,
    ;
    assert(r > 0) by (nonlinear_arith)
        requires
            r == t2 * t,
            t2 > 0,
            t == 2 * t2,
    ;
    assert(n <= (2 * limit + 1) * r) by (nonlinear_arith)
        requires
            0xff_ffff * n <= 0x100_0000 * (2 * (limit * r)),
            1 <= limit <= 1000,
            r > 0,
    ;
    assert(rounding::magnitude(half) * t == (2 * limit + 1) * r) by (nonlinear_arith)
        requires
            rounding::magnitude(half) == (2 * limit + 1) * t2,
            r == t2 * t,
    ;
    rounding::lemma_rounded_at_most(n, t, half);
    rounding::lemma_rounded_rounds(n, t);
    let m: int = rounding::rounded(n, t);
    crate::single::lemma_with_sign(false, m);
    if m < half {
        rounding::lemma_magnitude_increases(m, half);
    }
    let x: int = rounding::magnitude(m);
    if m > 0 {
        rounding::lemma_magnitude_increases(0, m);
    }
    assert(x < (limit + 1) * t) by (nonlinear_arith)
        requires
            x <= (2 * limit + 1) * t2,
            t == 2 * t2,
            t2 > 0,
    ;
    vstd::arithmetic::div_mod::lemma_multiply_divide_lt(x, t, limit + 1);
    assert(Single::of_int(side).product(factor) == Single::with_sign(false, m));
}

/// A thumbnail fits its box.
pub proof fn thumbnail_fits_its_box(w: int, h: int)
    requires
        1 <= w <= u32::MAX,
        1 <= h <= u32::MAX,
    ensures
        1 <= scaled_side(w, scale(w, h)) <= THUMB_MAX_W,
        1 <= scaled_side(h, scale(w, h)) <= THUMB_MAX_H,
{
    lemma_scale(w, h);
    power2::lemma2_to64();
    power2::lemma_pow2_adds(16, 132);
    let t: int = power2::pow2(132) as int;
    // 100.5 and 76.5
    rounding::lemma_packed(132, 0xc9_0000);
    rounding::lemma_packed(132, 0x99_0000);
    assert(0xc9_0000 * t == 201 * (0x1_0000 * t)) by (nonlinear_arith);
    assert(0x99_0000 * t == 153 * (0x1_0000 * t)) by (nonlinear_arith);
    lemma_side_within(THUMB_MAX_W as int, 0x42c9_0000, w, scale(w, h));
    lemma_side_within(THUMB_MAX_H as int, 0x4299_0000, h, scale(w, h));
}

/// No side of a thumbnail is longer than that of its image.
pub proof fn thumbnail_is_never_larger(w: int, h: int)
    requires
        1 <= w <= u32::MAX,
        1 <= h <= u32::MAX,
    ensures
        scaled_side(w, scale(w, h)) <= w,
        scaled_side(h, scale(w, h)) <= h,
{
    thumbnail_fits_its_box(w, h);
    lemma_scale(w, h);
    if w <= THUMB_MAX_W {
        lemma_side_not_longer(w, scale(w, h));
    }
    if h <= THUMB_MAX_H {
        lemma_side_not_longer(h, scale(w, h));
    }
}

proof fn lemma_side_not_longer(side: int, factor: Single)
    requires
        1 <= side <= 1000,
        !factor.negative(),
        factor.unsigned() <= 0x3f80_0000,
    ensures
        scaled_side(side, factor) <= side,
{
    let s: Single = Single::of_int(side);
    let t: int = power2::pow2(149) as int;
    power2::lemma_pow2_pos(149);
    crate::single::lemma_of_int_exact(side);
    crate::single::lemma_one();
    let a: int = rounding::magnitude(s.unsigned());
    let b: int = rounding::magnitude(factor.unsigned());
    if factor.unsigned() < 0x3f80_0000 {
        rounding::lemma_magnitude_increases(factor.unsigned(), 0x3f80_0000);
    }
    if factor.unsigned() > 0 {
        rounding::lemma_magnitude_increases(0, factor.unsigned());
    }
    rounding::lemma_magnitude_increases(0, s.unsigned());
    let n: int = a * b;
    assert(0 <= n <= a * t) by (nonlinear_arith)
        requires
            n == a * b,
            0 <= b <= t,
            a >= 0,
    ;
    rounding::lemma_rounded_at_most(n, t, s.unsigned());
    rounding::lemma_rounded_rounds(n, t);
    let m: int = rounding::rounded(n, t);
    crate::single::lemma_with_sign(false, m);
    if m < s.unsigned() {
        rounding::lemma_magnitude_increases(m, s.unsigned());
    }
    if m > 0 {
        rounding::lemma_magnitude_increases(0, m);
    }
    let x: int = rounding::magnitude(m);
    assert(x < (side + 1) * t) by (nonlinear_arith)
        requires
            x <= side * t,
            t > 0,
    ;
    vstd::arithmetic::div_mod::lemma_multiply_divide_lt(x, t, side + 1);
    assert(s.product(factor) == Single::with_sign(false, m));
}

/// An image that fits the box keeps its size.
pub proof fn image_in_the_box_keeps_its_size(w: int, h: int)
    requires
        1 <= w <= THUMB_MAX_W,
        1 <= h <= THUMB_MAX_H,
    ensures
        scaled_side(w, scale(w, h)) == w,
        scaled_side(h, scale(w, h)) == h,
{
    lemma_scale(w, h);
    crate::single::lemma_one();
    lemma_allowed_at_least_one(THUMB_MAX_W as int, w);
    lemma_allowed_at_least_one(THUMB_MAX_H as int, h);
    assert(scale(w, h).bits == 0x3f80_0000);
    lemma_side_kept(w);
    lemma_side_kept(h);
}

proof fn lemma_allowed_at_least_one(limit: int, side: int)
    requires
        1 <= side <= limit <= 1000,
    ensures
        !Single::of_int(limit).quotient(Single::of_int(side)).negative(),
        0x3f80_0000 <= Single::of_int(limit).quotient(Single::of_int(side)).unsigned()
            < rounding::INFINITY_BITS,
{
    let t: int = power2::pow2(149) as int;
    power2::lemma_pow2_pos(149);
    lemma_allowed(limit, side);
    crate::single::lemma_one();
    crate::single::lemma_of_int_exact(side);
    let d: int = rounding::magnitude(Single::of_int(side).unsigned());
    let n: int = limit * t * t;
    assert(t * d <= n && d > 0) by (nonlinear_arith)
        requires
            d == side * t,
            n == limit * t * t,
            1 <= side <= limit,
            t > 0,
    ;
    rounding::lemma_rounded_at_least(n, d, 0x3f80_0000);
}

proof fn lemma_side_kept(side: int)
    requires
        1 <= side <= 1000,
    ensures
        scaled_side(side, Single { bits: 0x3f80_0000 }) == side,
{
    let s: Single = Single::of_int(side);
    let t: int = power2::pow2(149) as int;
    power2::lemma_pow2_pos(149);
    crate::single::lemma_of_int_exact(side);
    crate::single::lemma_one();
    let a: int = rounding::magnitude(s.unsigned());
    rounding::lemma_rounded_exact(a * t, t, s.unsigned());
    crate::single::lemma_with_sign(false, s.unsigned());
    vstd::arithmetic::div_mod::lemma_div_by_multiple(side, t);
    assert(s.product(Single { bits: 0x3f80_0000 }) == Single::with_sign(false, s.unsigned()));
}

/// A thumbnail keeps the aspect of its image: one side is the same part of the
/// image's side as the other, but for the fraction of a pixel that is cut off
/// and one part in 2^21 for rounding. (A side of one pixel may have been
/// less than one before it was brought up to a whole pixel.)
pub proof fn thumbnail_keeps_the_aspect(w: int, h: int)
    requires
        1 <= w <= u32::MAX,
        1 <= h <= u32::MAX,
    ensures
        ({
            let tw = scaled_side(w, scale(w, h));
            let th = scaled_side(h, scale(w, h));
            &&& tw > 1 ==> 0x20_0000 * (tw * h) <= 0x20_0001 * ((th + 1) * w)
            &&& th > 1 ==> 0x20_0000 * (th * w) <= 0x20_0001 * ((tw + 1) * h)
        }),
{
    thumbnail_fits_its_box(w, h);
    lemma_scale(w, h);
    if scaled_side(w, scale(w, h)) > 1 {
        lemma_aspect(w, h, scale(w, h));
    }
    if scaled_side(h, scale(w, h)) > 1 {
        lemma_aspect(h, w, scale(w, h));
    }
}

/// Rounding an integer side moves it by less than one part in 2^24.
proof fn lemma_side_value(side: int)
    requires
        1 <= side <= u32::MAX,
    ensures
        ({
            let v = rounding::magnitude(Single::of_int(side).unsigned());
            let t = power2::pow2(149) as int;
            &&& v > 0
            &&& 0xff_ffff * v <= 0x100_0000 * (side * t)
            &&& 0x100_0000 * (side * t) <= 0x100_0001 * v
        }),
{
    let t: int = power2::pow2(149) as int;
    power2::lemma_pow2_pos(149);
    crate::single::lemma_of_int_range(side);
    assert(side * t > 0) by (nonlinear_arith)
        requires
            side > 0,
            t > 0,
    ;
    rounding::lemma_rounded_not_far_above(side * t, 1);
    rounding::lemma_rounded_not_far_below(side * t, 1);
    rounding::lemma_magnitude_increases(0, Single::of_int(side).unsigned());
}

/// What a scaled side says of the exact product, from above and from below.
proof fn lemma_side_product(side: int, factor: Single)
    requires
        1 <= side <= u32::MAX,
        !factor.negative(),
        0 < factor.unsigned() <= 0x3f80_0000,
        scaled_side(side, factor) < u32::MAX,
    ensures
        ({
            let t = power2::pow2(149) as int;
            let n = rounding::magnitude(Single::of_int(side).unsigned()) * rounding::magnitude(
                factor.unsigned(),
            );
            let k = scaled_side(side, factor);
            &&& k > 1 ==> 0xff_ffff * (k * t * t) <= 0x100_0000 * n
            &&& 0x100_0000 * n <= 0x100_0001 * ((k + 1) * t * t)
        }),
{
    let s: Single = Single::of_int(side);
    let t: int = power2::pow2(149) as int;
    power2::lemma_pow2_pos(149);
    power2::lemma2_to64();
    power2::lemma_pow2_strictly_increases(24, 149);
    crate::single::lemma_of_int_range(side);
    let a: int = rounding::magnitude(s.unsigned());
    let b: int = rounding::magnitude(factor.unsigned());
    rounding::lemma_magnitude_increases(0, factor.unsigned());
    rounding::lemma_magnitude_increases(0, s.unsigned());
    let n: int = a * b;
    let k: int = scaled_side(side, factor);
    assert(n >= 0) by (nonlinear_arith)
        requires
            n == a * b,
            a >= 0,
            b >= 0,
    ;
    rounding::lemma_rounded_rounds(n, t);
    let m: int = rounding::rounded(n, t);
    crate::single::lemma_with_sign(false, m);
    assert(s.product(factor) == Single::with_sign(false, m));
    let x: int = rounding::magnitude(m);
    if m > 0 {
        rounding::lemma_magnitude_increases(0, m);
    }
    let whole: int = x / t;
    vstd::arithmetic::div_mod::lemma_fundamental_div_mod(x, t);
    assert(whole * t <= x < (whole + 1) * t) by (nonlinear_arith)
        requires
            x == t * whole + x % t,
            0 <= x % t < t,
    ;
    assert(whole <= k);
    assert((whole + 1) * t <= (k + 1) * t) by (nonlinear_arith)
        requires
            whole <= k,
            t > 0,
    ;
    rounding::lemma_packed(0, 0x80_0001);
    if k > 1 {
        assert(whole == k);
        assert(x >= 0x80_0001) by (nonlinear_arith)
            requires
                x >= whole * t,
                whole >= 1,
                t > 0x100_0000,
        ;
        if m <= rounding::EXPONENT_STEP {
            rounding::lemma_magnitude_increases(m, 0x80_0001);
        }
        rounding::lemma_rounded_not_far_above(n, t);
        assert(k * t * t <= x * t) by (nonlinear_arith)
            requires
                k * t <= x,
                t > 0,
        ;
    }
    assert(t <= (k + 1) * t) by (nonlinear_arith)
        requires
            k >= 0,
            t > 0,
    ;
    if m < rounding::EXPONENT_STEP {
        rounding::lemma_packed(0, 0x80_0000);
        if 0x80_0000 * t <= n {
            rounding::lemma_rounded_at_least(n, t, 0x80_0000);
        }
        assert(n <= (k + 1) * t * t) by (nonlinear_arith)
            requires
                n <= 0x80_0000 * t,
                0x80_0000 <= t,
                t <= (k + 1) * t,
        ;
    } else {
        assert(m < rounding::INFINITY_BITS) by {
            if m == rounding::INFINITY_BITS {
                rounding::lemma_packed(254, 0x80_0000);
                power2::lemma_pow2_adds(149, 105);
                power2::lemma_pow2_strictly_increases(63, 105);
                power2::lemma2_to64_rest();
                assert(false) by (nonlinear_arith)
                    requires
                        x == 0x80_0000 * (t * power2::pow2(105)),
                        power2::pow2(105) > 0x1_0000_0000,
                        x < (k + 1) * t,
                        k < 0xffff_ffff,
                        t > 0,
                ;
            }
        }
        rounding::lemma_rounded_not_far_below(n, t);
        assert(x * t <= (k + 1) * t * t) by (nonlinear_arith)
            requires
                x <= (k + 1) * t,
                t > 0,
        ;
    }
}

proof fn lemma_aspect(a: int, b: int, factor: Single)
    requires
        1 <= a <= u32::MAX,
        1 <= b <= u32::MAX,
        !factor.negative(),
        0 < factor.unsigned() <= 0x3f80_0000,
        1 < scaled_side(a, factor) < u32::MAX,
        1 <= scaled_side(b, factor) < u32::MAX,
    ensures
        0x20_0000 * (scaled_side(a, factor) * b) <= 0x20_0001 * ((scaled_side(b, factor) + 1) * a),
{
    let t: int = power2::pow2(149) as int;
    let va: int = rounding::magnitude(Single::of_int(a).unsigned());
    let vb: int = rounding::magnitude(Single::of_int(b).unsigned());
    let f: int = rounding::magnitude(factor.unsigned());
    let j: int = scaled_side(a, factor);
    let k: int = scaled_side(b, factor) + 1;
    power2::lemma_pow2_pos(149);
    lemma_side_value(a);
    lemma_side_value(b);
    lemma_side_product(a, factor);
    lemma_side_product(b, factor);
    let q: int = t * t;
    assert(q > 0) by (nonlinear_arith)
        requires
            q == t * t,
            t > 0,
    ;
    assert(j * t * t == j * q && k * t * t == k * q) by (nonlinear_arith)
        requires
            q == t * t,
    ;
    // Through the exact product of both sides and the factor.
    let z: int = va * f * vb;
    assert(0xff_ffff * ((j * vb) * q) <= 0x100_0000 * z) by (nonlinear_arith)
        requires
            0xff_ffff * (j * q) <= 0x100_0000 * (va * f),
            z == va * f * vb,
            vb > 0,
    ;
    assert(0x100_0000 * z <= 0x100_0001 * ((k * va) * q)) by (nonlinear_arith)
        requires
            0x100_0000 * (vb * f) <= 0x100_0001 * (k * q),
            z == va * f * vb,
            va > 0,
    ;
    assert(0xff_ffff * (j * vb) <= 0x100_0001 * (k * va)) by (nonlinear_arith)
        requires
            0xff_ffff * ((j * vb) * q) <= 0x100_0001 * ((k * va) * q),
            q > 0,
    ;
    // From the rounded sides to the sides.
    assert(0x100_0000 * ((j * b) * t) <= 0x100_0001 * (j * vb)) by (nonlinear_arith)
        requires
            0x100_0000 * (b * t) <= 0x100_0001 * vb,
            j > 0,
    ;
    assert(0xff_ffff * (k * va) <= 0x100_0000 * ((k * a) * t)) by (nonlinear_arith)
        requires
            0xff_ffff * va <= 0x100_0000 * (a * t),
            k > 0,
    ;
    let x: int = (j * b) * t;
    let y: int = (k * a) * t;
    assert(x >= 0 && y >= 0) by (nonlinear_arith)
        requires
            x == (j * b) * t,
            y == (k * a) * t,
            j > 0,
            k > 0,
            a > 0,
            b > 0,
            t > 0,
    ;
    assert(0x20_0000 * x <= 0x20_0001 * y);
    assert(0x20_0000 * (j * b) <= 0x20_0001 * (k * a)) by (nonlinear_arith)
        requires
            0x20_0000 * ((j * b) * t) <= 0x20_0001 * ((k * a) * t),
            t > 0,
    ;
}

/// The scale factor is the tightest of three: what the width of the box
/// allows, what its height allows, and one.
pub proof fn scale_is_the_tightest(w: int, h: int)
    requires
        1 <= w <= u32::MAX,
        1 <= h <= u32::MAX,
    ensures
        ({
            let by_width = Single::of_int(THUMB_MAX_W as int).quotient(Single::of_int(w));
            let by_height = Single::of_int(THUMB_MAX_H as int).quotient(Single::of_int(h));
            let one = Single::of_int(1);
            &&& scale(w, h) == by_width || scale(w, h) == by_height || scale(w, h) == one
            &&& scale(w, h).value() <= by_width.value()
            &&& scale(w, h).value() <= by_height.value()
            &&& scale(w, h).value() <= one.value()
        }),
{
    lemma_allowed(THUMB_MAX_W as int, w);
    lemma_allowed(THUMB_MAX_H as int, h);
    crate::single::lemma_one();
    let by_width: Single = Single::of_int(THUMB_MAX_W as int).quotient(Single::of_int(w));
    let by_height: Single = Single::of_int(THUMB_MAX_H as int).quotient(Single::of_int(h));
    crate::single::greater_and_lesser_are_bounds(by_width, by_height);
    crate::single::greater_and_lesser_are_bounds(by_width.lesser(by_height), Single::of_int(1));
}

/// A scaled side is the product with the factor, cut off to whole pixels, or
/// one pixel where that is less than one.
pub proof fn scaled_side_is_cut_off(side: int, factor: Single)
    ensures
        ({
            let p = Single::of_int(side).product(factor);
            let t = power2::pow2(149) as int;
            let k = scaled_side(side, factor);
            &&& 1 <= k <= u32::MAX
            &&& p.is_nan() ==> k == 1
            &&& !p.is_nan() && k > 1 ==> k * t <= p.value()
            &&& !p.is_nan() && k < u32::MAX ==> p.value() < (k + 1) * t
        }),
{
    let p: Single = Single::of_int(side).product(factor);
    let t: int = power2::pow2(149) as int;
    power2::lemma_pow2_pos(149);
    crate::single::integer_part_is_cut_off(p, u32::MAX as int);
    let whole: int = p.integer_part(u32::MAX as int);
    let k: int = scaled_side(side, factor);
    assert((whole + 1) * t <= (k + 1) * t) by (nonlinear_arith)
        requires
            whole <= k,
            t > 0,
    ;
}

/// An image that does not fit the box fills it, but for at most one pixel, from
/// left to right or from top to bottom.
pub proof fn thumbnail_fills_its_box(w: int, h: int)
    requires
        1 <= w <= u32::MAX,
        1 <= h <= u32::MAX,
        w > THUMB_MAX_W || h > THUMB_MAX_H,
    ensures
        scaled_side(w, scale(w, h)) >= THUMB_MAX_W - 1 || scaled_side(h, scale(w, h)) >= THUMB_MAX_H
            - 1,
{
    lemma_scale(w, h);
    lemma_allowed(THUMB_MAX_W as int, w);
    lemma_allowed(THUMB_MAX_H as int, h);
    crate::single::lemma_one();
    scale_is_the_tightest(w, h);
    thumbnail_fits_its_box(w, h);
    let by_width: Single = Single::of_int(THUMB_MAX_W as int).quotient(Single::of_int(w));
    let by_height: Single = Single::of_int(THUMB_MAX_H as int).quotient(Single::of_int(h));
    if scale(w, h) == by_width {
        lemma_side_filled(THUMB_MAX_W as int, w);
    } else if scale(w, h) == by_height {
        lemma_side_filled(THUMB_MAX_H as int, h);
    } else {
        if w > THUMB_MAX_W {
            lemma_allowed_below_one(THUMB_MAX_W as int, w);
        } else {
            lemma_allowed_below_one(THUMB_MAX_H as int, h);
        }
    }
}

/// A limit allows less than a longer side.
proof fn lemma_allowed_below_one(limit: int, side: int)
    requires
        1 <= limit <= 1000,
        limit < side <= u32::MAX,
    ensures
        Single::of_int(limit).quotient(Single::of_int(side)).unsigned() < 0x3f80_0000,
{
    let t: int = power2::pow2(149) as int;
    power2::lemma_pow2_pos(149);
    lemma_allowed(limit, side);
    crate::single::lemma_one();
    crate::single::lemma_of_int_exact(limit + 1);
    crate::single::lemma_of_int_range(side);
    let s: int = Single::of_int(side).unsigned();
    let c: int = Single::of_int(limit + 1).unsigned();
    let d: int = rounding::magnitude(s);
    assert(rounding::magnitude(c) * 1 <= side * t) by (nonlinear_arith)
        requires
            rounding::magnitude(c) == (limit + 1) * t,
            limit + 1 <= side,
            t > 0,
    ;
    rounding::lemma_rounded_at_least(side * t, 1, c);
    if c < s {
        rounding::lemma_magnitude_increases(c, s);
    }
    // The next number below one is 1 - 2^-24.
    let below: int = 0x3f7f_ffff;
    rounding::lemma_packed(125, 0xff_ffff);
    power2::lemma_pow2_adds(24, 125);
    power2::lemma2_to64();
    let u: int = power2::pow2(125) as int;
    let n: int = limit * t * t;
    assert(n >= 0 && d > 0 && n <= (0xff_ffff * u) * d) by (nonlinear_arith)
        requires
            n == limit * t * t,
            1 <= limit <= 1000,
            d >= (limit + 1) * t,
            t == 0x100_0000 * u,
            t > 0,
            u > 0,
    ;
    rounding::lemma_rounded_at_most(n, d, below);
}

/// A side that is scaled by just what its limit allows comes to within a pixel
/// of the limit.
proof fn lemma_side_filled(limit: int, side: int)
    requires
        1 <= limit <= 1000,
        1 <= side <= u32::MAX,
        Single::of_int(limit).quotient(Single::of_int(side)).unsigned() <= 0x3f80_0000,
        scaled_side(side, Single::of_int(limit).quotient(Single::of_int(side))) < u32::MAX,
    ensures
        scaled_side(side, Single::of_int(limit).quotient(Single::of_int(side))) >= limit - 1,
{
    let factor: Single = Single::of_int(limit).quotient(Single::of_int(side));
    let t: int = power2::pow2(149) as int;
    power2::lemma_pow2_pos(149);
    lemma_allowed(limit, side);
    crate::single::lemma_of_int_range(side);
    let a: int = rounding::magnitude(Single::of_int(side).unsigned());
    let b: int = rounding::magnitude(factor.unsigned());
    rounding::lemma_magnitude_increases(0, Single::of_int(side).unsigned());
    let q: int = t * t;
    assert(limit * t * t == limit * q && limit * q >= 0 && q > 0) by (nonlinear_arith)
        requires
            q == t * t,
            limit >= 1,
            t > 0,
    ;
    rounding::lemma_rounded_not_far_below(limit * t * t, a);
    lemma_side_product(side, factor);
    let k: int = scaled_side(side, factor);
    assert((k + 1) * t * t == (k + 1) * q && a * b == b * a) by (nonlinear_arith)
        requires
            q == t * t,
    ;
    assert(0x100_0000 * (0x100_0000 * limit) * q <= 0x100_0001 * (0x100_0001 * (k + 1)) * q)
        by (nonlinear_arith)
        requires
            0x100_0000 * (limit * q) <= 0x100_0001 * (b * a),
            0x100_0000 * (b * a) <= 0x100_0001 * ((k + 1) * q),
    ;
    assert(0x100_0000 * (0x100_0000 * limit) <= 0x100_0001 * (0x100_0001 * (k + 1)))
        by (nonlinear_arith)
        requires
            0x100_0000 * (0x100_0000 * limit) * q <= 0x100_0001 * (0x100_0001 * (k + 1)) * q,
            q > 0,
    ;
}

} // verus!
