//! The arithmetic on bit patterns agrees with the processor's.

use peakmuncher::arith::from_whole;
use peakmuncher::double::narrow;
use peakmuncher::pcm::{dequantise, quantise};
use peakmuncher::scalar::{
    absolute, add_to, ceiling, divide_by, fraction_of, larger, multiply, nearest_parts, neg, round,
    smaller, subtract, truncate,
};
use peakmuncher::single::{at_least_zero, ceil_times, clamp, floor_times, is_at_most, less_than};

fn samples_to_try() -> Vec<f32> {
    let mut v: Vec<f32> = vec![
        0.0,
        -0.0,
        1.0,
        -1.0,
        0.5,
        1.5,
        2.5,
        0.1,
        -0.3,
        1e-6,
        1e-20,
        -1e-20,
        1e-45,
        1.1754942e-38,
        1.17549435e-38,
        3.4028235e38,
        -3.4028235e38,
        f32::INFINITY,
        f32::NEG_INFINITY,
        f32::NAN,
        8388607.5,
        8388608.0,
        16777216.0,
        16777217.0,
        123456.79,
        9.3132257e-10,
        std::f32::consts::PI,
    ];
    let mut x: u32 = 0x1234_5678;
    for _ in 0..60 {
        x = x.wrapping_mul(1664525).wrapping_add(1013904223);
        v.push(f32::from_bits(x));
    }
    v
}

fn same(a: u32, b: f32) -> bool {
    if b.is_nan() {
        f32::from_bits(a).is_nan()
    } else {
        a == b.to_bits()
    }
}

#[test]
fn four_operations_round_like_the_processor() {
    let v = samples_to_try();
    for &a in &v {
        for &b in &v {
            let (x, y) = (a.to_bits(), b.to_bits());
            assert!(same(add_to(x, y), a + b), "{a} + {b}");
            assert!(same(subtract(x, y), a - b), "{a} - {b}");
            assert!(same(multiply(x, y), a * b), "{a} * {b}");
            assert!(same(divide_by(x, y), a / b), "{a} / {b}");
        }
    }
}

#[test]
fn comparisons_agree() {
    let v = samples_to_try();
    for &a in &v {
        for &b in &v {
            let (x, y) = (a.to_bits(), b.to_bits());
            assert_eq!(less_than(x, y), a < b, "{a} < {b}");
            assert_eq!(is_at_most(x, y), a <= b, "{a} <= {b}");
            let (hi, lo) = (larger(x, y), smaller(x, y));
            // the two zeros are equal, and either may come out
            if a == 0.0 && b == 0.0 {
                assert_eq!(f32::from_bits(hi), 0.0);
                assert_eq!(f32::from_bits(lo), 0.0);
            } else {
                assert!(same(hi, a.max(b)), "max {a} {b}");
                assert!(same(lo, a.min(b)), "min {a} {b}");
            }
        }
    }
}

#[test]
fn signs_and_bounds() {
    for &a in &samples_to_try() {
        let x = a.to_bits();
        assert_eq!(neg(x), (-a).to_bits());
        assert_eq!(absolute(x), a.abs().to_bits());
        assert!(same(clamp(x, (-1.0f32).to_bits(), 1.0f32.to_bits()), a.clamp(-1.0, 1.0)));
    }
    assert_eq!(at_least_zero((-3.0f32).to_bits()), 0);
    assert_eq!(at_least_zero(3.0f32.to_bits()), 3.0f32.to_bits());
}

#[test]
fn whole_numbers() {
    for &a in &samples_to_try() {
        let x = a.to_bits();
        assert_eq!(truncate(x), a as u64, "{a}");
        assert_eq!(round(x), a.round() as u64, "{a}");
        assert_eq!(ceiling(x), a.ceil() as u64, "{a}");
        assert!(same(fraction_of(x), a - a.floor()), "{a}");
    }
    for n in [0u64, 1, 2, 3, 16777215, 16777217, 16777219, u32::MAX as u64, u64::MAX] {
        assert_eq!(from_whole(n), (n as f32).to_bits(), "{n}");
    }
}

#[test]
fn seconds_become_frames() {
    for &t in &[0.0f32, 0.1, 1.0, 2.5, 61.7, 600.0] {
        for &rate in &[8000u32, 44100, 48000, 96000] {
            assert_eq!(floor_times(t.to_bits(), rate as u64), (t * rate as f32) as usize);
            assert_eq!(ceil_times(t.to_bits(), rate as u64), (t * rate as f32).ceil() as usize);
        }
    }
}

#[test]
fn decimal_digits_round_half_to_even() {
    for &a in &[0.0f32, 0.05, 0.125, 0.25, 0.35, 0.5, 1.5, 2.5, 99.95, 1234.5678] {
        let tenths: u128 = format!("{:.1}", a).replace('.', "").parse().unwrap();
        assert_eq!(nearest_parts(a.to_bits(), 10), tenths, "{a}");
        let whole: u128 = format!("{:.0}", a).parse().unwrap();
        assert_eq!(nearest_parts(a.to_bits(), 1), whole, "{a}");
    }
}

#[test]
fn doubles_are_narrowed() {
    for &d in &[0.0f64, 0.1, -0.1, 1.0 + 1e-9, 1e300, -1e300, 1e-50, 0.333333333333333, f64::INFINITY] {
        assert_eq!(narrow(d.to_bits()), (d as f32).to_bits(), "{d}");
    }
    assert!(f32::from_bits(narrow(f64::NAN.to_bits())).is_nan());
}

#[test]
fn codes_round_trip_up_to_24_bits() {
    for d in [8u32, 16, 24] {
        let top: i32 = 1 << (d - 1);
        for v in [-top, -top + 1, -1, 0, 1, 12, top - 2, top - 1] {
            let s = dequantise(v, d);
            assert_eq!(f32::from_bits(s), v as f32 / top as f32);
            assert_eq!(quantise(s, d), v);
        }
    }
    assert_eq!(quantise(1.0f32.to_bits(), 16), 32767);
    assert_eq!(quantise((-2.0f32).to_bits(), 16), -32768);
    assert_eq!(quantise(f32::NAN.to_bits(), 16), 0);
    assert_eq!(quantise(0.5f32.to_bits(), 24), 1 << 22);
}
