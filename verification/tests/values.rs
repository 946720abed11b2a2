use gamepad_facade::ieee::{normalize, stick_value, trigger_value, Double, Single};
use gamepad_facade::motion::has_moved;

/// A fixed sequence of well-spread 64-bit numbers.
fn spread(state: &mut u64) -> u64 {
    *state = state.wrapping_add(0x9e37_79b9_7f4a_7c15);
    let mut z = *state;
    z = (z ^ (z >> 30)).wrapping_mul(0xbf58_476d_1ce4_e5b9);
    z = (z ^ (z >> 27)).wrapping_mul(0x94d0_49bb_1331_11eb);
    z ^ (z >> 31)
}

fn double(x: f64) -> Double {
    Double { bits: x.to_bits() }
}

fn single(x: f32) -> Single {
    Single { bits: x.to_bits() }
}

fn check_stick(x: f64) {
    let expected = (x as f32).clamp(-1.0, 1.0);
    let v = stick_value(double(x));
    if expected.is_nan() {
        assert!(f32::from_bits(v.bits).is_nan(), "stick {x:e}");
    } else {
        assert_eq!(v.bits, expected.to_bits(), "stick {x:e}");
    }
}

fn check_trigger(x: f64) {
    let expected = x.clamp(0.0, 1.0) as f32;
    let v = trigger_value(double(x));
    if expected.is_nan() {
        assert!(f32::from_bits(v.bits).is_nan(), "trigger {x:e}");
    } else {
        assert_eq!(v.bits, expected.to_bits(), "trigger {x:e}");
    }
}

fn check_moved(a: f32, b: f32) {
    let expected = (a - b).abs() >= 1.0 / 512.0;
    assert_eq!(has_moved(single(a), single(b)), expected, "from {b:e} to {a:e}");
}

#[test]
fn every_raw_reading_is_divided_and_clamped() {
    for raw in i16::MIN..=i16::MAX {
        let expected = (raw as f32 / 0x7FFF as f32).clamp(-1.0, 1.0);
        assert_eq!(normalize(raw).bits, expected.to_bits(), "raw {raw}");
    }
}

#[test]
fn raw_readings_end_at_one() {
    assert_eq!(normalize(0x7fff), single(1.0));
    assert_eq!(normalize(-0x7fff), single(-1.0));
    assert_eq!(normalize(-0x8000), single(-1.0));
    assert_eq!(normalize(0), single(0.0));
    assert_eq!(normalize(0x4000).bits, 0x3f00_0100);
}

#[test]
fn raw_readings_keep_their_order_and_symmetry() {
    let value = |raw: i16| f32::from_bits(normalize(raw).bits);
    for raw in i16::MIN..i16::MAX {
        assert!(value(raw) <= value(raw + 1));
    }
    for raw in -0x7fff..=0x7fff_i16 {
        assert_eq!(value(-raw), -value(raw));
    }
}

#[test]
fn stick_readings_are_clamped_and_rounded() {
    for x in [
        0.0, -0.0, 0.5, -0.5, 1.0, -1.0, 1.5, -7.0, 0.1, -0.1, 1e-30, -1e-30, 1e-40, 1e-45, 1e-46,
        7.006492321624085e-46, 7.006492321624086e-46, 1e-300, -1e-300, 5e-324, 1e300,
        0.99999997, 0.99999999, 1.0000001, -1.0000001,
    ] {
        check_stick(x);
        check_trigger(x);
    }
    assert_eq!(stick_value(double(2.5)), single(1.0));
    assert_eq!(stick_value(double(-2.5)), single(-1.0));
    assert_eq!(stick_value(double(0.1)).bits, 0x3dcc_cccd);
    assert_eq!(stick_value(double(f64::INFINITY)), single(1.0));
    assert_eq!(stick_value(double(f64::NEG_INFINITY)), single(-1.0));
}

#[test]
fn halfway_readings_round_to_even() {
    let one = 0x3f00_0000_u32;
    for step in 0..8_u32 {
        let lower = f32::from_bits(one + step) as f64;
        let upper = f32::from_bits(one + step + 1) as f64;
        let halfway = (lower + upper) / 2.0;
        let even = if step % 2 == 0 { one + step } else { one + step + 1 };
        assert_eq!(stick_value(double(halfway)), Single { bits: even });
        check_stick(halfway);
    }
}

#[test]
fn trigger_readings_are_clamped_and_rounded() {
    assert_eq!(trigger_value(double(-0.25)), single(0.0));
    assert_eq!(trigger_value(double(-1e-300)), single(0.0));
    assert_eq!(trigger_value(double(-0.0)), single(-0.0));
    assert_eq!(trigger_value(double(0.75)), single(0.75));
    assert_eq!(trigger_value(double(1.25)), single(1.0));
    assert_eq!(trigger_value(double(f64::NEG_INFINITY)), single(0.0));
}

#[test]
fn what_is_not_a_number_stays_so_and_is_no_motion() {
    for bits in [f64::NAN.to_bits(), 0xfff0_0000_0000_0001, 0x7fff_ffff_ffff_ffff] {
        for v in [stick_value(Double { bits }), trigger_value(Double { bits })] {
            assert!(f32::from_bits(v.bits).is_nan());
            for x in [0.0, 1.0, -1.0] {
                assert!(!has_moved(v, single(x)));
                assert!(!has_moved(single(x), v));
            }
            assert!(!has_moved(v, v));
        }
    }
    check_moved(f32::NAN, 0.5);
    check_moved(-0.5, f32::NAN);
}

#[test]
fn readings_agree_with_the_machine() {
    let mut state = 1;
    for _ in 0..200_000 {
        let bits = spread(&mut state);
        check_stick(f64::from_bits(bits));
        check_trigger(f64::from_bits(bits));
        // Any significand, at an exponent that does not overflow binary32.
        let exponent = 860 + spread(&mut state) % 170;
        let x = f64::from_bits(bits & 0x800f_ffff_ffff_ffff | exponent << 52);
        check_stick(x);
        check_trigger(x);
    }
}

#[test]
fn motion_starts_at_one_in_512() {
    check_moved(1.0 / 512.0, 0.0);
    check_moved(0.0, 1.0 / 512.0);
    check_moved(-1.0 / 512.0, 0.0);
    check_moved(0.5, 0.5 + 1.0 / 512.0);
    let below = f32::from_bits((1.0_f32 / 512.0).to_bits() - 1);
    check_moved(below, 0.0);
    assert!(has_moved(single(1.0 / 512.0), single(0.0)));
    assert!(!has_moved(single(below), single(0.0)));
    assert!(has_moved(single(1.0), single(-1.0)));
    assert!(!has_moved(single(0.0), single(-0.0)));
    assert!(!has_moved(single(0.3), single(0.3)));
}

#[test]
fn a_difference_that_rounds_up_is_motion() {
    // The exact distance is just short of 1/512, and its rounding is not.
    let a = 1.0 / 512.0 + f32::from_bits(0x2f00_0000);
    for k in 0x2e00_0000..0x2e80_0000_u32 {
        if k % 0x1_0001 == 0 {
            check_moved(1.0 / 512.0, f32::from_bits(k));
            check_moved(-1.0 / 512.0, f32::from_bits(k));
            check_moved(a, f32::from_bits(k));
        }
    }
    let tiny = f32::from_bits(1);
    assert!(has_moved(single(1.0 / 512.0), single(tiny)));
    let shy = 2.0_f32.powi(-34);
    assert!(has_moved(single(1.0 / 512.0), single(shy)));
    let more = f32::from_bits(shy.to_bits() + 1);
    assert!(!has_moved(single(1.0 / 512.0), single(more)));
    check_moved(1.0 / 512.0, more);
}

#[test]
fn motion_agrees_with_the_machine() {
    let mut state = 2;
    for _ in 0..200_000 {
        let bits = spread(&mut state);
        let exponent = spread(&mut state) % 128;
        let a = f32::from_bits(((bits as u32) & 0x807f_ffff | (exponent as u32) << 23) as u32)
            .clamp(-1.0, 1.0);
        let b = f32::from_bits(((bits >> 32) as u32) & 0x807f_ffff | 117 << 23);
        check_moved(a, b);
        check_moved(b, a);
        // Two values about 1/512 apart.
        let near = (b + 1.0 / 512.0).clamp(-1.0, 1.0);
        let nudged = f32::from_bits(near.to_bits().wrapping_add((bits % 7) as u32).wrapping_sub(3))
            .clamp(-1.0, 1.0);
        check_moved(nudged, b);
        check_moved(b, nudged);
        check_moved(-nudged, -b);
    }
}
