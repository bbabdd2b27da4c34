//! The arithmetic on bit patterns against the machine's own.
use sense_hat_meter::binary32::Binary32;

fn lib(x: f32) -> Binary32 {
    Binary32::from_bits(x.to_bits())
}

/// Equal patterns, any two that are not numbers counting as equal.
fn agree(ours: Binary32, machine: f32, what: &str, a: f32, b: f32) {
    let ours_float = f32::from_bits(ours.to_bits());
    if machine.is_nan() {
        assert!(ours_float.is_nan(), "{} of {:?} and {:?}: {:?}", what, a, b, ours_float);
    } else {
        assert_eq!(ours.to_bits(), machine.to_bits(), "{} of {:?} and {:?}", what, a, b);
    }
}

fn compare(a: f32, b: f32) {
    agree(lib(a).plus(lib(b)), a + b, "sum", a, b);
    agree(lib(a).minus(lib(b)), a - b, "difference", a, b);
    agree(lib(a).times(lib(b)), a * b, "product", a, b);
    agree(lib(a).divided_by(lib(b)), a / b, "quotient", a, b);
    agree(lib(a).square_root(), a.sqrt(), "root", a, b);
    assert_eq!(lib(a).less_than(lib(b)), a < b, "{:?} < {:?}", a, b);
    assert_eq!(lib(a).to_byte(), a as u8, "byte of {:?}", a);
    assert_eq!(lib(a).not_a_number(), a.is_nan());
    if !(a == 0.0 && b == 0.0) {
        agree(lib(a).max_of(lib(b)), a.max(b), "max", a, b);
        agree(lib(a).min_of(lib(b)), a.min(b), "min", a, b);
    }
}

fn edges() -> Vec<f32> {
    let patterns: Vec<u32> = vec![
        0x0000_0000, 0x0000_0001, 0x0000_0002, 0x0000_0003, 0x0040_0000, 0x007F_FFFF, 0x0080_0000,
        0x0080_0001, 0x00FF_FFFF, 0x0100_0000, 0x1A80_0000, 0x2000_0000, 0x3400_0000, 0x3380_0000,
        0x3F00_0000, 0x3F7F_FFFF, 0x3F80_0000, 0x3F80_0001, 0x4000_0000, 0x40A0_0000, 0x437F_0000,
        0x437F_FFFF, 0x4380_0000, 0x4B00_0000, 0x4B80_0000, 0x5F00_0000, 0x7E80_0000, 0x7F00_0000,
        0x7F7F_FFFE, 0x7F7F_FFFF, 0x7F80_0000, 0x7F80_0001, 0x7FC0_0000, 0x7FFF_FFFF,
    ];
    let mut all: Vec<f32> = Vec::new();
    for p in patterns {
        all.push(f32::from_bits(p));
        all.push(f32::from_bits(p | 0x8000_0000));
    }
    all
}

/// A fixed pseudo-random sequence.
struct Sequence {
    state: u64,
}

impl Sequence {
    fn next(&mut self) -> u32 {
        self.state = self.state.wrapping_mul(6364136223846793005).wrapping_add(1442695040888963407);
        (self.state >> 32) as u32
    }
}

#[test]
fn operations_agree_on_edge_cases() {
    let all = edges();
    for a in &all {
        for b in &all {
            compare(*a, *b);
        }
    }
}

#[test]
fn operations_agree_on_arbitrary_patterns() {
    let mut s = Sequence { state: 7 };
    for _ in 0..300_000 {
        let a = s.next();
        let b = s.next();
        compare(f32::from_bits(a), f32::from_bits(b));
    }
}

#[test]
fn operations_agree_on_close_exponents() {
    let mut s = Sequence { state: 11 };
    for _ in 0..300_000 {
        let a = s.next();
        let exponent = ((a >> 23) & 0xFF) as i32;
        let shift = (s.next() % 61) as i32 - 30;
        let other = (exponent + shift).clamp(0, 254) as u32;
        let b = (s.next() & 0x807F_FFFF) | (other << 23);
        compare(f32::from_bits(a), f32::from_bits(b));
    }
}

#[test]
fn sums_with_ties_round_to_even() {
    compare(16777216.0, 1.0);
    compare(16777218.0, 1.0);
    compare(16777216.0, -0.5);
    compare(1.0, f32::EPSILON / 2.0);
    compare(1.0 + f32::EPSILON, f32::EPSILON / 2.0);
    assert_eq!(lib(16777216.0).plus(lib(1.0)).to_bits(), 16777216.0f32.to_bits());
    assert_eq!(lib(16777218.0).plus(lib(1.0)).to_bits(), 16777220.0f32.to_bits());
}

#[test]
fn whole_numbers_agree() {
    for n in -32768i32..=32767 {
        assert_eq!(Binary32::from_i16(n as i16).to_bits(), (n as i16 as f32).to_bits());
    }
    let mut s = Sequence { state: 3 };
    for i in 0..100_000usize {
        assert_eq!(Binary32::from_usize(i).to_bits(), (i as f32).to_bits());
        let wide = ((s.next() as u64) << 32 | s.next() as u64) as usize;
        let n = wide >> (s.next() % 60);
        assert_eq!(Binary32::from_usize(n).to_bits(), (n as f32).to_bits());
    }
    assert_eq!(Binary32::from_usize(usize::MAX).to_bits(), (usize::MAX as f32).to_bits());
}

#[test]
fn negation_flips_the_sign_bit() {
    for a in edges() {
        assert_eq!(lib(a).negated().to_bits(), (-a).to_bits());
    }
}
