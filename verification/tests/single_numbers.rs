//! The arithmetic on singles, held against the machine's own.

use vocan::audio_effects::from_int_sample;
use vocan::double::{gigabytes_text, to_double};
use vocan::fixed::fixed_text;
use vocan::single::Single;

fn s(x: f32) -> Single {
    Single::from_bits(x.to_bits())
}

fn f(x: Single) -> f32 {
    f32::from_bits(x.to_bits())
}

fn same(a: Single, b: f32) -> bool {
    if b.is_nan() {
        f(a).is_nan()
    } else {
        a.to_bits() == b.to_bits()
    }
}

fn patterns() -> Vec<u32> {
    let mut v = vec![
        0,
        0x8000_0000,
        1,
        2,
        0x8000_0001,
        0x007F_FFFF,
        0x0080_0000,
        0x0080_0001,
        0x3F80_0000,
        0x3F80_0001,
        0x3F7F_FFFF,
        0xBF80_0000,
        0x7F7F_FFFF,
        0xFF7F_FFFF,
        0x7F80_0000,
        0xFF80_0000,
        0x7FC0_0000,
        0x4B00_0000,
        0x4B80_0000,
        0x4CFF_FFFF,
    ];
    let mut state: u32 = 0x9E37_79B9;
    for _ in 0..150 {
        state ^= state << 13;
        state ^= state >> 17;
        state ^= state << 5;
        v.push(state);
    }
    for x in [0.1f32, 0.25, 0.5, 1.5, 2.5, 3.0, 10.0, 100.0, -45.0, 0.003, 1e-7, 1e-10, 44100.0] {
        v.push(x.to_bits());
    }
    v
}

#[test]
fn sums_and_differences_are_those_of_the_machine() {
    for &a in &patterns() {
        for &b in &patterns() {
            let (x, y) = (f32::from_bits(a), f32::from_bits(b));
            assert!(same(s(x).plus(s(y)), x + y), "{x:e} + {y:e}");
            assert!(same(s(x).minus(s(y)), x - y), "{x:e} - {y:e}");
        }
    }
}

#[test]
fn products_and_quotients_are_those_of_the_machine() {
    for &a in &patterns() {
        for &b in &patterns() {
            let (x, y) = (f32::from_bits(a), f32::from_bits(b));
            assert!(same(s(x).times(s(y)), x * y), "{x:e} * {y:e}");
            assert!(same(s(x).over(s(y)), x / y), "{x:e} / {y:e}");
        }
    }
}

#[test]
fn comparisons_are_those_of_the_machine() {
    for &a in &patterns() {
        for &b in &patterns() {
            let (x, y) = (f32::from_bits(a), f32::from_bits(b));
            assert_eq!(s(x).lt(s(y)), x < y);
            assert_eq!(s(x).le(s(y)), x <= y);
            if !(x == 0.0 && y == 0.0) {
                assert!(same(s(x).max(s(y)), x.max(y)), "max {x:e} {y:e}");
            }
        }
    }
}

#[test]
fn rounding_is_that_of_the_machine() {
    for &a in &patterns() {
        let x = f32::from_bits(a);
        assert!(same(s(x).round(), x.round()), "{x:e}");
        assert_eq!(s(x).round_to_index(), x.round() as usize, "{x:e}");
        assert!(same(s(x).abs(), x.abs()));
        assert!(same(s(x).negate(), -x));
        assert_eq!(s(x).is_finite(), x.is_finite());
        assert!(same(s(x).clamp(s(0.0), s(100.0)), x.clamp(0.0, 100.0)));
    }
    assert_eq!(f(s(-14.5).round()), -15.0);
    assert_eq!(f(s(-0.3).round()).to_bits(), (-0.0f32).to_bits());
}

#[test]
fn whole_numbers_are_converted_as_the_machine_does() {
    for v in [0u64, 1, 2, 16_777_215, 16_777_216, 16_777_217, 16_777_219, u32::MAX as u64, u64::MAX] {
        assert!(same(Single::from_u64(v), v as f32), "{v}");
    }
    for v in [0i32, 1, -1, -8, 32768, -32768, i32::MAX, i32::MIN, 16_777_217, -16_777_219] {
        assert!(same(Single::from_i32(v), v as f32), "{v}");
    }
    assert!(same(Single::of_ratio(3, 1000), 0.003));
    assert!(same(Single::of_ratio(25, 1000), 0.025));
    assert!(same(Single::of_ratio(12, 100), 0.12));
    assert!(same(Single::of_ratio(2, 3), 2.0 / 3.0));
    assert!(same(Single::of_ratio(1, 10_000_000), 1e-7));
    assert!(same(from_int_sample(-32768, 16), -1.0));
    assert!(same(from_int_sample(16384, 16), 0.5));
    assert!(same(from_int_sample(8388607, 24), 8388607.0 / 8388608.0));
}

#[test]
fn numbers_are_written_as_the_standard_library_writes_them() {
    for &a in &patterns() {
        let x = f32::from_bits(a);
        assert_eq!(fixed_text(s(x), 0), format!("{:.0}", x), "{x:e}");
        assert_eq!(fixed_text(s(x), 1), format!("{:.1}", x), "{x:e}");
        assert_eq!(fixed_text(s(x), 2), format!("{:.2}", x), "{x:e}");
        assert_eq!(fixed_text(s(x), 4), format!("{:.4}", x), "{x:e}");
    }
    assert_eq!(fixed_text(s(0.5), 0), "0");
    assert_eq!(fixed_text(s(1.5), 0), "2");
    assert_eq!(fixed_text(s(2.5), 0), "2");
    assert_eq!(fixed_text(s(-0.04), 1), "-0.0");
    assert_eq!(fixed_text(s(0.125), 2), "0.12");
    assert_eq!(fixed_text(s(f32::INFINITY), 1), "inf");
    assert_eq!(fixed_text(s(f32::NEG_INFINITY), 1), "-inf");
    assert_eq!(fixed_text(s(f32::NAN), 1), "NaN");
}

#[test]
fn whole_numbers_at_double_precision_are_those_of_the_machine() {
    let mut state: u64 = 0x1234_5678_9ABC_DEF1;
    for _ in 0..2000 {
        state ^= state << 13;
        state ^= state >> 7;
        state ^= state << 17;
        assert_eq!(to_double(state as u128), state as f64 as u128);
        let gb = state as f64 / 1024.0 / 1024.0 / 1024.0;
        assert_eq!(gigabytes_text(state as u128, 1), format!("{:.1}", gb));
        let small = state >> 30;
        let gb = small as f64 / 1024.0 / 1024.0 / 1024.0;
        assert_eq!(gigabytes_text(small as u128, 2), format!("{:.2}", gb));
    }
    assert_eq!(to_double(u64::MAX as u128), 1u128 << 64);
    assert_eq!(to_double((1 << 53) + 1), 1 << 53);
    assert_eq!(to_double((1 << 53) + 3), (1 << 53) + 4);
}
