use pixel_transform::affine::adjust_value;
use pixel_transform::error::TransformError;
use rand::Rng;

fn expected(v: u8, scale: f64, offset: f64) -> u8 {
    (v as f64 * scale + offset).round().clamp(0.0, 255.0) as u8
}

fn assert_all_bytes(scale: f64, offset: f64) {
    for v in 0..=255u8 {
        assert_eq!(
            adjust_value(v, scale.to_bits(), offset.to_bits()),
            Ok(expected(v, scale, offset)),
            "v = {}, scale = {:e} ({:#x}), offset = {:e} ({:#x})",
            v,
            scale,
            scale.to_bits(),
            offset,
            offset.to_bits()
        );
    }
}

#[test]
fn adjust_value_follows_the_formula() {
    assert_eq!(adjust_value(10, 1.5f64.to_bits(), (-5.0f64).to_bits()), Ok(10));
    assert_eq!(adjust_value(11, 1.5f64.to_bits(), (-5.0f64).to_bits()), Ok(12));
    assert_eq!(adjust_value(100, 1.5f64.to_bits(), (-5.0f64).to_bits()), Ok(145));
    assert_eq!(adjust_value(200, 2.0f64.to_bits(), 0.0f64.to_bits()), Ok(255));
    assert_eq!(adjust_value(10, 1.0f64.to_bits(), (-50.0f64).to_bits()), Ok(0));
    assert_eq!(adjust_value(77, 1.0f64.to_bits(), 0.0f64.to_bits()), Ok(77));
    assert_eq!(adjust_value(77, 0.0f64.to_bits(), 33.5f64.to_bits()), Ok(34));
    assert_eq!(adjust_value(3, (-1.0f64).to_bits(), 10.0f64.to_bits()), Ok(7));
}

#[test]
fn adjust_value_rounds_the_product_before_the_sum() {
    // 5 * 0.7 is 3.5 in binary64, though 0.7 itself lies below seven tenths.
    assert_eq!(adjust_value(5, 0.7f64.to_bits(), 0.0f64.to_bits()), Ok(4));
    assert_eq!(expected(5, 0.7, 0.0), 4);
    assert_all_bytes(0.7, 0.0);
    assert_all_bytes(0.1, 0.0);
    assert_all_bytes(0.3, 0.5);
    assert_all_bytes(1.1, -0.5);
}

#[test]
fn adjust_value_agrees_with_float_arithmetic_on_usual_parameters() {
    let mut rng = rand::thread_rng();
    for _ in 0..2000 {
        let scale: f64 = rng.gen_range(0.0..2.0);
        let offset: f64 = rng.gen_range(-100.0..100.0);
        assert_all_bytes(scale, offset);
    }
    for _ in 0..2000 {
        let scale: f64 = rng.gen_range(-4.0..4.0);
        let offset: f64 = rng.gen_range(-600.0..600.0);
        assert_all_bytes(scale, offset);
    }
}

#[test]
fn adjust_value_agrees_with_float_arithmetic_on_short_decimals() {
    let mut s: i32 = -300;
    while s <= 300 {
        let mut o: i32 = -40;
        while o <= 40 {
            assert_all_bytes(s as f64 / 100.0, o as f64 / 4.0);
            assert_all_bytes(s as f64 / 100.0, o as f64 / 10.0);
            o += 1;
        }
        s += 1;
    }
}

#[test]
fn adjust_value_agrees_with_float_arithmetic_on_random_patterns() {
    let mut rng = rand::thread_rng();
    let mut done = 0;
    while done < 3000 {
        let scale = f64::from_bits(rng.gen());
        let offset = f64::from_bits(rng.gen());
        if scale.is_finite() && offset.is_finite() {
            assert_all_bytes(scale, offset);
            done += 1;
        }
    }
}

#[test]
fn adjust_value_agrees_with_float_arithmetic_when_magnitudes_are_close() {
    let mut rng = rand::thread_rng();
    for _ in 0..3000 {
        let exponent: i32 = rng.gen_range(-1074..1020);
        let shift: i32 = rng.gen_range(-80..80);
        let a: f64 = rng.gen_range(1.0..2.0);
        let b: f64 = rng.gen_range(1.0..2.0);
        let sa: f64 = if rng.gen() { 1.0 } else { -1.0 };
        let sb: f64 = if rng.gen() { 1.0 } else { -1.0 };
        let scale = sa * a * 2.0f64.powi(exponent);
        let offset = sb * b * 2.0f64.powi((exponent + shift).clamp(-1074, 1023));
        assert_all_bytes(scale, offset);
    }
    for _ in 0..3000 {
        let exponent: i32 = rng.gen_range(-20..12);
        let shift: i32 = rng.gen_range(-75..75);
        let a: f64 = rng.gen_range(1.0..2.0);
        let b: f64 = rng.gen_range(1.0..2.0);
        let sa: f64 = if rng.gen() { 1.0 } else { -1.0 };
        let sb: f64 = if rng.gen() { 1.0 } else { -1.0 };
        assert_all_bytes(sa * a * 2.0f64.powi(exponent), sb * b * 2.0f64.powi(exponent + shift));
    }
}

#[test]
fn adjust_value_agrees_with_float_arithmetic_near_cancellation() {
    let mut rng = rand::thread_rng();
    for _ in 0..2000 {
        let scale: f64 = rng.gen_range(-3.0..3.0);
        let v: u8 = rng.gen();
        let target: f64 = rng.gen_range(-2.0..258.0);
        let offset = target - v as f64 * scale;
        assert_all_bytes(scale, offset);
        assert_all_bytes(scale, f64::from_bits(offset.to_bits() ^ 1));
    }
}

#[test]
fn adjust_value_at_the_edges_of_the_range() {
    let edges = [
        0.0f64,
        -0.0,
        f64::MIN_POSITIVE,
        -f64::MIN_POSITIVE,
        f64::from_bits(1),
        f64::from_bits(0x000f_ffff_ffff_ffff),
        f64::MAX,
        f64::MIN,
        f64::MAX / 255.0,
        f64::MAX / 128.0,
        1.0e308,
        -1.0e308,
        0.5,
        254.5,
        255.0,
        255.5,
        0.49999999999999994,
    ];
    for scale in edges {
        for offset in edges {
            assert_all_bytes(scale, offset);
        }
    }
}

#[test]
fn adjust_value_refuses_parameters_that_are_not_finite() {
    for bad in [f64::NAN, f64::INFINITY, f64::NEG_INFINITY] {
        assert_eq!(adjust_value(1, bad.to_bits(), 0), Err(TransformError::InvalidParameter));
        assert_eq!(
            adjust_value(1, 1.0f64.to_bits(), bad.to_bits()),
            Err(TransformError::InvalidParameter)
        );
        assert_eq!(adjust_value(0, bad.to_bits(), bad.to_bits()), Err(TransformError::InvalidParameter));
    }
}
