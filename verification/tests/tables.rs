use pixel_transform::error::TransformError;
use pixel_transform::lut::{LookupTableBuilder, TransformParams};
use pixel_transform::binary64::{adjust_scaled, decode, is_finite, ONE, ZERO};
use rand::Rng;

fn reference(x: f64) -> u8 {
    x.round().clamp(0.0, 255.0) as u8
}

fn params_of(scale: f64, offset: f64) -> TransformParams {
    TransformParams::new(scale.to_bits(), offset.to_bits())
}

fn round_pattern(x: f64) -> u8 {
    let (negative, mantissa, exponent) = decode(x.to_bits());
    adjust_scaled(negative, mantissa, exponent)
}

#[test]
fn decode_takes_patterns_apart() {
    assert_eq!(decode(1.0f64.to_bits()), (false, 1u64 << 52, 1022));
    assert_eq!(decode((-1.0f64).to_bits()), (true, 1u64 << 52, 1022));
    assert_eq!(decode(1.5f64.to_bits()), (false, 3u64 << 51, 1022));
    assert_eq!(decode(2.0f64.to_bits()), (false, 1u64 << 52, 1023));
    assert_eq!(decode(0.0f64.to_bits()), (false, 0, 0));
    assert_eq!(decode((-0.0f64).to_bits()), (true, 0, 0));
    assert_eq!(decode(1u64), (false, 1, 0));
    assert_eq!(decode(f64::MIN_POSITIVE.to_bits()), (false, 1u64 << 52, 0));
    assert_eq!(decode(f64::MAX.to_bits()), (false, (1u64 << 53) - 1, 2045));
    assert_eq!(decode(ONE), decode(1.0f64.to_bits()));
    assert_eq!(decode(ZERO), decode(0.0f64.to_bits()));
}

#[test]
fn adjust_scaled_rounds_to_nearest() {
    assert_eq!(round_pattern(10.0), 10);
    assert_eq!(round_pattern(10.4), 10);
    assert_eq!(round_pattern(10.6), 11);
    assert_eq!(round_pattern(0.0), 0);
    assert_eq!(round_pattern(1.0), 1);
    assert_eq!(round_pattern(255.0), 255);
    assert_eq!(round_pattern(254.49), 254);
    assert_eq!(adjust_scaled(false, 5, 1074), 5);
    assert_eq!(adjust_scaled(false, 5, 1073), 3);
    assert_eq!(adjust_scaled(false, 5, 1072), 1);
    assert_eq!(adjust_scaled(false, 5, 1071), 1);
    assert_eq!(adjust_scaled(false, 3, 1071), 0);
    assert_eq!(adjust_scaled(false, 1, 1081), 128);
    assert_eq!(adjust_scaled(false, 1, 1082), 255);
    assert_eq!(adjust_scaled(false, 1u64 << 53, 1021), 1);
    assert_eq!(adjust_scaled(false, 1u64 << 53, 1020), 1);
    assert_eq!(adjust_scaled(false, 1u64 << 53, 1019), 0);
    assert_eq!(adjust_scaled(true, 5, 1074), 0);
}

#[test]
fn adjust_scaled_ties_go_away_from_zero() {
    assert_eq!(round_pattern(0.5), 1);
    assert_eq!(round_pattern(1.5), 2);
    assert_eq!(round_pattern(2.5), 3);
    assert_eq!(round_pattern(10.5), 11);
    assert_eq!(round_pattern(253.5), 254);
    assert_eq!(round_pattern(254.5), 255);
}

#[test]
fn adjust_scaled_just_below_a_tie_rounds_down() {
    assert_eq!(round_pattern(0.49999999999999994), 0);
    assert_eq!(round_pattern(2.4999999999999996), 2);
    assert_eq!(round_pattern(254.49999999999997), 254);
}

#[test]
fn adjust_scaled_saturates() {
    assert_eq!(round_pattern(255.4), 255);
    assert_eq!(round_pattern(255.5), 255);
    assert_eq!(round_pattern(256.0), 255);
    assert_eq!(round_pattern(400.0), 255);
    assert_eq!(round_pattern(1.0e300), 255);
    assert_eq!(round_pattern(f64::MAX), 255);
    assert_eq!(round_pattern(-0.4), 0);
    assert_eq!(round_pattern(-0.5), 0);
    assert_eq!(round_pattern(-40.0), 0);
    assert_eq!(round_pattern(-1.0e300), 0);
    assert_eq!(round_pattern(f64::MIN), 0);
    assert_eq!(round_pattern(-0.0), 0);
    assert_eq!(round_pattern(f64::MIN_POSITIVE), 0);
    assert_eq!(round_pattern(f64::EPSILON), 0);
}

#[test]
fn adjust_scaled_agrees_with_float_rounding_on_a_grid() {
    let mut k: i32 = -4096;
    while k <= 8192 {
        let x = k as f64 / 16.0;
        assert_eq!(round_pattern(x), reference(x), "x = {}", x);
        let up = f64::from_bits(x.to_bits() + 1);
        assert_eq!(round_pattern(up), reference(up), "x = {}", up);
        if x != 0.0 {
            let down = f64::from_bits(x.to_bits() - 1);
            assert_eq!(round_pattern(down), reference(down), "x = {}", down);
        }
        k += 1;
    }
}

#[test]
fn adjust_scaled_agrees_with_float_rounding_on_random_patterns() {
    let mut rng = rand::thread_rng();
    for _ in 0..20000 {
        let x = f64::from_bits(rng.gen());
        if x.is_finite() {
            assert_eq!(round_pattern(x), reference(x), "x = {:e}", x);
        }
        let y: f64 = rng.gen_range(-300.0..600.0);
        assert_eq!(round_pattern(y), reference(y), "y = {}", y);
    }
}

#[test]
fn is_finite_tells_numbers_from_the_rest() {
    assert!(is_finite(0.0f64.to_bits()));
    assert!(is_finite((-0.0f64).to_bits()));
    assert!(is_finite(1.5f64.to_bits()));
    assert!(is_finite(f64::MAX.to_bits()));
    assert!(is_finite(f64::MIN_POSITIVE.to_bits()));
    assert!(is_finite(1u64));
    assert!(is_finite(ONE));
    assert!(is_finite(ZERO));
    assert!(!is_finite(f64::INFINITY.to_bits()));
    assert!(!is_finite(f64::NEG_INFINITY.to_bits()));
    assert!(!is_finite(f64::NAN.to_bits()));
}

#[test]
fn params_keep_their_bits() {
    let params = TransformParams::new(1.5f64.to_bits(), (-5.0f64).to_bits());
    assert_eq!(params.scale_bits, 1.5f64.to_bits());
    assert_eq!(params.offset_bits, (-5.0f64).to_bits());
    assert!(params.is_finite());
    assert!(!TransformParams::new(f64::NAN.to_bits(), 0).is_finite());
    assert!(!TransformParams::new(0, f64::INFINITY.to_bits()).is_finite());
    assert_eq!(ONE, 1.0f64.to_bits());
    assert_eq!(ZERO, 0.0f64.to_bits());
}

#[test]
fn build_follows_the_formula() {
    let (scale, offset) = (1.5f64, -5.0f64);
    let table = LookupTableBuilder::build(&params_of(scale, offset)).unwrap();
    assert_eq!(table.entries[0], 0);
    assert_eq!(table.entries[3], 0);
    assert_eq!(table.entries[4], 1);
    assert_eq!(table.entries[10], 10);
    assert_eq!(table.entries[11], 12);
    assert_eq!(table.entries[100], 145);
    assert_eq!(table.entries[173], 255);
    assert_eq!(table.entries[174], 255);
    assert_eq!(table.entries[255], 255);
    for v in 0..256usize {
        assert_eq!(table.entries[v], reference(v as f64 * scale + offset));
        assert_eq!(table.apply(v as u8), table.entries[v]);
    }
}

#[test]
fn build_agrees_with_float_arithmetic_for_random_parameters() {
    let mut rng = rand::thread_rng();
    for _ in 0..500 {
        let scale: f64 = rng.gen_range(0.0..2.0);
        let offset: f64 = rng.gen_range(-100.0..100.0);
        let table = LookupTableBuilder::build(&params_of(scale, offset)).unwrap();
        for v in 0..256usize {
            assert_eq!(table.entries[v], reference(v as f64 * scale + offset));
        }
    }
}

#[test]
fn build_handles_a_product_that_lands_on_a_tie() {
    let table = LookupTableBuilder::build(&params_of(0.7, 0.0)).unwrap();
    assert_eq!(table.entries[5], 4);
    assert_eq!(table.entries[5], reference(5.0 * 0.7));
    assert_eq!(table.entries[10], 7);
}

#[test]
fn saturation_examples() {
    let high = LookupTableBuilder::build(&params_of(2.0, 0.0)).unwrap();
    assert_eq!(high.entries[200], 255);
    assert_eq!(high.entries[128], 255);
    assert_eq!(high.entries[127], 254);
    let low = LookupTableBuilder::build(&params_of(1.0, -50.0)).unwrap();
    assert_eq!(low.entries[10], 0);
    assert_eq!(low.entries[50], 0);
    assert_eq!(low.entries[51], 1);
}

#[test]
fn saturation_with_a_product_beyond_the_largest_number() {
    let table = LookupTableBuilder::build(&params_of(1.0e308, 0.0)).unwrap();
    assert_eq!(table.entries[0], 0);
    assert_eq!(table.entries[1], 255);
    assert_eq!(table.entries[255], 255);
    let down = LookupTableBuilder::build(&params_of(-1.0e308, 1.0e308)).unwrap();
    assert_eq!(down.entries[0], 255);
    assert_eq!(down.entries[1], 0);
    assert_eq!(down.entries[255], 0);
}

#[test]
fn identity_table() {
    let table = LookupTableBuilder::build(&TransformParams::new(ONE, ZERO)).unwrap();
    let other = LookupTableBuilder::build(&params_of(1.0, -0.0)).unwrap();
    for v in 0..256usize {
        assert_eq!(table.entries[v], v as u8);
        assert_eq!(other.entries[v], v as u8);
    }
}

#[test]
fn table_is_monotone_for_a_scale_of_zero_or_more() {
    let mut rng = rand::thread_rng();
    let mut cases = vec![(0.0f64, 17.0f64), (0.3, -20.0), (1.0, 0.0), (1.7, 33.3), (40.0, -900.0)];
    for _ in 0..200 {
        cases.push((rng.gen_range(0.0..3.0), rng.gen_range(-300.0..300.0)));
    }
    for (scale, offset) in cases {
        let table = LookupTableBuilder::build(&params_of(scale, offset)).unwrap();
        for v in 1..256usize {
            assert!(table.entries[v - 1] <= table.entries[v]);
        }
    }
}

#[test]
fn building_twice_gives_the_same_table() {
    let params = params_of(1.234, -7.75);
    let first = LookupTableBuilder::build(&params).unwrap();
    let second = LookupTableBuilder::build(&params).unwrap();
    assert_eq!(first.entries, second.entries);
}

#[test]
fn build_refuses_parameters_that_are_not_finite() {
    for (scale, offset) in [
        (f64::NAN, 0.0),
        (f64::INFINITY, 0.0),
        (f64::NEG_INFINITY, 0.0),
        (1.0, f64::NAN),
        (1.0, f64::INFINITY),
        (1.0, f64::NEG_INFINITY),
    ] {
        let result = LookupTableBuilder::build(&params_of(scale, offset));
        assert_eq!(result.err(), Some(TransformError::InvalidParameter));
    }
}

#[test]
fn error_messages() {
    assert_eq!(TransformError::ShapeMismatch.message(), "buffer shapes do not match");
    assert_eq!(TransformError::InvalidParameter.message(), "scale and offset must be finite");
    assert_eq!(
        TransformError::StrategyNotFound.message(),
        "no strategy registered under that name"
    );
    assert_eq!(
        TransformError::WorkerFailure.message(),
        "a worker failed before finishing its chunk"
    );
}
