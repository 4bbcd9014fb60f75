use cce_notifier::single::Single;

/// A stream of scattered bit patterns.
struct Bits {
    state: u64,
}

impl Bits {
    fn new(seed: u64) -> Bits {
        Bits { state: seed }
    }

    fn take(&mut self) -> u64 {
        self.state ^= self.state << 13;
        self.state ^= self.state >> 7;
        self.state ^= self.state << 17;
        self.state
    }

    fn pattern(&mut self) -> u32 {
        let r = self.take();
        let special = [
            0u32,
            1,
            2,
            0x007f_ffff,
            0x0080_0000,
            0x0080_0001,
            0x3f80_0000,
            0x3f80_0001,
            0x4b7f_ffff,
            0x7f7f_ffff,
            0x7f80_0000,
            0x7f80_0001,
            0x7fc0_0000,
        ];
        let low = (r >> 8) as u32;
        match r % 8 {
            0 => special[(low as usize) % special.len()] | (((r >> 40) as u32 & 1) << 31),
            1 => low & 0x80ff_ffff,
            2 => (low & 0x807f_ffff) | 0x3f80_0000,
            3 => (low & 0x83ff_ffff) | 0x3c00_0000,
            _ => low,
        }
    }
}

fn single(x: f32) -> Single {
    Single { bits: x.to_bits() }
}

fn same(r: Single, x: f32) -> bool {
    let y = f32::from_bits(r.bits);
    (y.is_nan() && x.is_nan()) || r.bits == x.to_bits()
}

#[test]
fn subtraction_matches_the_machine() {
    let mut bits = Bits::new(0x9e37_79b9_7f4a_7c15);
    for _ in 0..400_000 {
        let a = f32::from_bits(bits.pattern());
        let b = f32::from_bits(bits.pattern());
        assert!(same(single(a).minus(single(b)), a - b), "{a:e} - {b:e}");
    }
}

#[test]
fn products_match_the_machine() {
    let mut bits = Bits::new(0xd1b5_4a32_d192_ed03);
    for _ in 0..400_000 {
        let a = f32::from_bits(bits.pattern());
        let b = f32::from_bits(bits.pattern());
        assert!(same(single(a).times(single(b)), a * b), "{a:e} * {b:e}");
    }
}

#[test]
fn quotients_match_the_machine() {
    let mut bits = Bits::new(0xaef1_7502_08d1_14c5);
    for _ in 0..400_000 {
        let a = f32::from_bits(bits.pattern());
        let b = f32::from_bits(bits.pattern());
        if a.is_normal() && b.is_finite() && b != 0.0 {
            assert!(same(single(a).over(single(b)), a / b), "{a:e} / {b:e}");
        }
    }
}

#[test]
fn conversions_match_the_machine() {
    let mut bits = Bits::new(0x2545_f491_4f6c_dd1d);
    for _ in 0..400_000 {
        let raw = bits.take();
        let i = (raw as i64) >> (raw % 61);
        assert!(same(Single::from_i64(i), i as f32), "{i}");
        let x = f32::from_bits(bits.pattern());
        assert_eq!(single(x).to_integer(u32::MAX), x as u32, "{x:e}");
        assert_eq!(single(x).to_integer(255), (x as u8) as u32, "{x:e}");
    }
    for i in [0, 1, -1, i64::MAX, i64::MIN, 16_777_217, -16_777_219] {
        assert!(same(Single::from_i64(i), i as f32), "{i}");
    }
}

#[test]
fn order_matches_the_machine() {
    let mut bits = Bits::new(0x94d0_49bb_1331_11eb);
    for _ in 0..400_000 {
        let a = f32::from_bits(bits.pattern());
        let b = f32::from_bits(bits.pattern());
        assert_eq!(single(a).le(single(b)), a <= b);
        // Which of two zeros is the greater is left open.
        if a != 0.0 || b != 0.0 {
            assert!(same(single(a).max(single(b)), a.max(b)));
            assert!(same(single(a).min(single(b)), a.min(b)));
        }
    }
}

#[test]
fn rounding_is_to_the_nearest_even() {
    // 2^24 + 1 is half way between two numbers; so is 2^24 + 3.
    assert_eq!(Single::from_i64(16_777_217).bits, 0x4b80_0000);
    assert_eq!(Single::from_i64(16_777_219).bits, 0x4b80_0002);
    // 0.1 + 0.2 by way of 0.1 - (-0.2).
    let r = Single { bits: 0x3dcc_cccd }.minus(Single { bits: 0xbe4c_cccd });
    assert_eq!(r.bits, 0x3e99_999a);
    // The largest number and half a unit of it: overflow.
    let r = Single { bits: 0x7f7f_ffff }.minus(Single { bits: 0xf300_0000 });
    assert_eq!(r.bits, 0x7f80_0000);
}

#[test]
fn zero_differences_have_their_sign() {
    assert_eq!(single(0.0).minus(single(0.0)).bits, 0);
    assert_eq!(single(-0.0).minus(single(0.0)).bits, 0x8000_0000);
    assert_eq!(single(-0.0).minus(single(-0.0)).bits, 0);
    assert_eq!(single(2.5).minus(single(2.5)).bits, 0);
}
