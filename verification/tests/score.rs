use rec_rsys::score::numeric_order_key;
use rec_rsys::score::ranking_key;
use rec_rsys::score::score_is_nan;
use rec_rsys::score::total_order_key;
use rec_rsys::score::NAN_RANK;
use rec_rsys::utils::numeric_order;
use rec_rsys::utils::rank_order;
use std::cmp::Ordering;

const SAMPLES: [f32; 13] = [
    f32::NEG_INFINITY,
    f32::MIN,
    -2.5,
    -1.0,
    -f32::MIN_POSITIVE,
    -1e-45,
    -0.0,
    0.0,
    1e-45,
    0.33,
    1.0,
    f32::MAX,
    f32::INFINITY,
];

#[test]
fn nan_patterns_are_recognised() {
    assert!(score_is_nan(f32::NAN.to_bits()));
    assert!(score_is_nan((-f32::NAN).to_bits()));
    assert!(score_is_nan(0x7f80_0001));
    assert!(score_is_nan(0xffff_ffff));
    for x in SAMPLES {
        assert!(!score_is_nan(x.to_bits()));
    }
}

#[test]
fn total_key_exact_values() {
    assert_eq!(total_order_key(0.0f32.to_bits()), 0);
    assert_eq!(total_order_key((-0.0f32).to_bits()), -1);
    assert_eq!(total_order_key(1.0f32.to_bits()), 0x3f80_0000);
    assert_eq!(total_order_key((-1.0f32).to_bits()), -0x3f80_0001);
    assert_eq!(total_order_key(f32::INFINITY.to_bits()), 0x7f80_0000);
    assert_eq!(total_order_key(f32::NEG_INFINITY.to_bits()), -0x7f80_0001);
    assert_eq!(total_order_key(0xffff_ffff), -0x8000_0000);
}

#[test]
fn numeric_key_exact_values() {
    assert_eq!(numeric_order_key(0.0f32.to_bits()), 0);
    assert_eq!(numeric_order_key((-0.0f32).to_bits()), 0);
    assert_eq!(numeric_order_key(1.0f32.to_bits()), 0x3f80_0000);
    assert_eq!(numeric_order_key((-1.0f32).to_bits()), -0x3f80_0000);
}

#[test]
fn ranking_key_exact_values() {
    assert_eq!(ranking_key(1.0f32.to_bits(), false), 0x3f80_0000);
    assert_eq!(ranking_key(1.0f32.to_bits(), true), -0x3f80_0000);
    assert_eq!(ranking_key((-0.0f32).to_bits(), true), 1);
    assert_eq!(ranking_key(f32::NAN.to_bits(), false), NAN_RANK);
    assert_eq!(ranking_key(f32::NAN.to_bits(), true), NAN_RANK);
    assert_eq!(ranking_key((-f32::NAN).to_bits(), true), NAN_RANK);
    assert_eq!(NAN_RANK, 0x8000_0000);
}

#[test]
fn total_key_agrees_with_total_order_of_floats() {
    let mut all: Vec<f32> = SAMPLES.to_vec();
    all.push(f32::NAN);
    all.push(-f32::NAN);
    for a in all.iter() {
        for b in all.iter() {
            let keys = total_order_key(a.to_bits()).cmp(&total_order_key(b.to_bits()));
            assert_eq!(keys, a.total_cmp(b));
        }
    }
}

#[test]
fn numeric_key_agrees_with_comparison_of_numbers() {
    for a in SAMPLES {
        for b in SAMPLES {
            let keys = numeric_order_key(a.to_bits()).cmp(&numeric_order_key(b.to_bits()));
            assert_eq!(Some(keys), a.partial_cmp(&b));
            assert_eq!(numeric_order(a.to_bits(), b.to_bits()), keys);
        }
    }
}

#[test]
fn rank_order_by_direction() {
    let (low, high, nan) = (0.25f32.to_bits(), 0.75f32.to_bits(), f32::NAN.to_bits());
    assert_eq!(rank_order(low, high, false), Ordering::Less);
    assert_eq!(rank_order(low, high, true), Ordering::Greater);
    assert_eq!(rank_order(high, high, true), Ordering::Equal);
    assert_eq!(rank_order(nan, high, false), Ordering::Greater);
    assert_eq!(rank_order(nan, high, true), Ordering::Greater);
    assert_eq!(rank_order(low, nan, true), Ordering::Less);
    assert_eq!(rank_order(nan, (-f32::NAN).to_bits(), false), Ordering::Equal);
}
