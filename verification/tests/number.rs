//! Floating-point numbers as bits, held against the machine's own.

use pika::bytes::{from_bytes, to_array, to_bytes};
use pika::number::{is_less_32, is_less_64, is_near_32, Double};

fn double(x: f64) -> Double {
    Double::from_bits(x.to_bits())
}

fn samples() -> Vec<f64> {
    vec![
        0.0,
        -0.0,
        1.0,
        -1.0,
        1.5,
        -42.0,
        0.1,
        3.14,
        100.0,
        2147483647.0,
        2147483648.0,
        -2147483648.0,
        -2147483649.0,
        4294967295.0,
        4294967296.0,
        3_000_000_000.0,
        9007199254740993.0,
        9223372036854775807.0,
        -9223372036854775808.0,
        18446744073709551615.0,
        1e300,
        -1e300,
        1e-300,
        5e-324,
        1e-45,
        1e-40,
        7e-46,
        3.4028234663852886e38,
        3.4028235677973366e38,
        3.5e38,
        f64::INFINITY,
        f64::NEG_INFINITY,
        f64::NAN,
        f64::MIN_POSITIVE,
        16777217.0,
        0.30000001192092896,
    ]
}

#[test]
fn whole_numbers_are_told_apart() {
    for x in samples() {
        assert_eq!(double(x).is_whole(), x.is_finite() && x.fract() == 0.0, "{x}");
    }
}

#[test]
fn conversion_saturates() {
    for x in samples() {
        let d = double(x);
        assert_eq!(d.to_int(i32::MIN as i128, i32::MAX as i128), (x as i32) as i128, "{x}");
        assert_eq!(d.to_int(0, u32::MAX as i128), (x as u32) as i128, "{x}");
        assert_eq!(d.to_int(i64::MIN as i128, i64::MAX as i128), (x as i64) as i128, "{x}");
        assert_eq!(d.to_int(0, u64::MAX as i128), (x as u64) as i128, "{x}");
    }
}

#[test]
fn singles_are_rounded_to_even() {
    for x in samples() {
        let single = f32::from_bits(double(x).to_single());
        if x.is_nan() {
            assert!(single.is_nan());
        } else {
            assert_eq!(single.to_bits(), (x as f32).to_bits(), "{x}");
        }
    }
    assert_eq!(double(100.0).to_single(), 0x42c8_0000);
}

#[test]
fn doubles_are_compared() {
    for x in samples() {
        for y in samples() {
            assert_eq!(is_less_64(double(x), double(y)), x < y, "{x} {y}");
            let (a, b) = (x as f32, y as f32);
            assert_eq!(is_less_32(a.to_bits(), b.to_bits()), a < b, "{a} {b}");
        }
    }
}

#[test]
fn near_means_within_a_thousandth() {
    let values = [
        0.0_f32, -0.0, 0.0005, 0.001, 0.0010001, -0.0005, 1.0, 1.0009, 1.001, 1.0011, 100.0,
        100.001, 100.0008, 16777216.0, 16777218.0, 1e-45, -1e-45, 3.4e38, -3.4e38,
        f32::INFINITY, f32::NAN, f32::MIN_POSITIVE,
    ];
    for a in values {
        for b in values {
            assert_eq!(
                is_near_32(a.to_bits(), b.to_bits()),
                (a - b).abs() <= 0.001,
                "{a} {b}"
            );
        }
    }
}

#[test]
fn closeness_to_single_precision() {
    for x in samples() {
        let close = (f64::from(x as f32) - x).abs() < 1e-6;
        assert_eq!(double(x).is_close_to_single(), close, "{x}");
    }
}

#[test]
fn bytes_are_little_endian() {
    assert_eq!(to_bytes(0x1234_5678, 4), 0x1234_5678_u32.to_le_bytes().to_vec());
    assert_eq!(to_array(u64::MAX - 1), (u64::MAX - 1).to_le_bytes());
    assert_eq!(from_bytes(&[0x78, 0x56, 0x34, 0x12, 0xff], 4), 0x1234_5678);
    assert_eq!(from_bytes(&0xdead_beef_u64.to_le_bytes(), 8), 0xdead_beef);
}
