use laya::number::{f64_of_f32, f64_of_i64, f64_of_u64, f64_small_whole, usize_of_f64};

#[test]
fn unsigned_to_binary64_rounds_to_nearest_even() {
    for x in [0u64, 1, 2, 3, 1000, 123456789, (1 << 53) - 1, 1 << 53, (1 << 53) + 1, (1 << 53) + 3, u64::MAX, u64::MAX - 1024] {
        assert_eq!(f64_of_u64(x), (x as f64).to_bits(), "{x}");
    }
}

#[test]
fn signed_to_binary64() {
    for x in [0i64, -1, 1, -3, i64::MIN, i64::MAX, -(1 << 53) - 1] {
        assert_eq!(f64_of_i64(x), (x as f64).to_bits(), "{x}");
    }
}

#[test]
fn binary64_to_usize_truncates_and_saturates() {
    let cases = [0.0, 2.7, -2.7, 1e300, -1e300, f64::INFINITY, f64::NEG_INFINITY, f64::NAN, 4096.0, 0.999, 1e-310];
    for x in cases {
        assert_eq!(usize_of_f64(x.to_bits()), x as usize, "{x}");
    }
}

#[test]
fn round_trip_of_small_counts() {
    for x in [0u64, 1, 7, 4096, 1 << 40, 1 << 53] {
        assert_eq!(usize_of_f64(f64_of_u64(x)), x as usize);
    }
}

#[test]
fn small_whole_numbers() {
    assert_eq!(f64_small_whole(32.0f64.to_bits()), Some(32));
    assert_eq!(f64_small_whole(0.0f64.to_bits()), Some(0));
    assert_eq!(f64_small_whole(9007199254740992.0f64.to_bits()), Some(9007199254740992));
    assert_eq!(f64_small_whole(18014398509481984.0f64.to_bits()), None);
    assert_eq!(f64_small_whole(1.5f64.to_bits()), None);
    assert_eq!(f64_small_whole((-2.0f64).to_bits()), None);
    assert_eq!(f64_small_whole(f64::NAN.to_bits()), None);
    assert_eq!(f64_small_whole(f64::INFINITY.to_bits()), None);
}

#[test]
fn binary32_widens_exactly() {
    for x in [0.0f32, -0.0, 1.0, -2.5, 1e-40, -1e-45, f32::MAX, f32::MIN_POSITIVE, f32::INFINITY, f32::NEG_INFINITY, 0.1] {
        assert_eq!(f64_of_f32(x.to_bits()), (x as f64).to_bits(), "{x}");
    }
}
