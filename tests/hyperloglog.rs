use sketches::hyperloglog::HyperLogLog;

// The floating-point estimator over the exact register summary:
// raw = alpha * m^2 / sum 2^-reg, with linear counting for small ranges and
// the 64-bit hash-space correction for large ones.
fn estimate(hll: &HyperLogLog) -> f64 {
    if hll.is_empty() {
        return 0.0;
    }
    let (scaled_sum, zeros) = hll.register_summary();
    let m = hll.register_count() as f64;
    let alpha = match hll.register_count() {
        16 => 0.673,
        32 => 0.697,
        64 => 0.709,
        _ => 0.7213 / (1.0 + 1.079 / m),
    };
    let harmonic_sum = scaled_sum as f64 / 2_f64.powi(61);
    let raw = alpha * m * m / harmonic_sum;
    let corrected_small = if raw <= 2.5 * m && zeros > 0 {
        m * (m / zeros as f64).ln()
    } else {
        raw
    };
    let two_to_64 = (u64::MAX as f64) + 1.0;
    if corrected_small > two_to_64 / 30.0 {
        let ratio = (corrected_small / two_to_64).min(1.0 - f64::EPSILON);
        -two_to_64 * (1.0 - ratio).ln()
    } else {
        corrected_small
    }
}

fn count(hll: &HyperLogLog) -> u64 {
    estimate(hll).round() as u64
}

#[test]
fn precision_range_is_enforced() {
    assert!(HyperLogLog::new(3).is_err());
    assert!(HyperLogLog::new(4).is_ok());
    assert!(HyperLogLog::new(18).is_ok());
    assert!(HyperLogLog::new(19).is_err());
}

#[test]
fn empty_sketch_estimates_zero() {
    let hll = HyperLogLog::new(12).unwrap();
    assert!(hll.is_empty());
    assert_eq!(count(&hll), 0);
    assert_eq!(hll.register_summary(), (4_096_u128 << 61, 4_096));
}

#[test]
fn duplicate_insertions_do_not_explode_cardinality() {
    let mut hll = HyperLogLog::new(12).unwrap();
    for _ in 0..1_000 {
        hll.add(&"same-key");
    }
    assert!(count(&hll) <= 3);
    assert_eq!(hll.register_summary().1, 4_095);
}

#[test]
fn estimate_is_reasonable_for_medium_cardinality() {
    let mut hll = HyperLogLog::new(12).unwrap();
    let exact = 10_000_u64;
    for value in 0..exact {
        hll.add(&value);
    }
    let estimate = count(&hll);
    let relative_error = (estimate as f64 - exact as f64).abs() / exact as f64;
    assert!(
        relative_error <= 0.10,
        "estimate={estimate} exact={exact} rel_error={relative_error}"
    );
}

#[test]
fn hyperloglog_merge_combines_observations() {
    let mut left = HyperLogLog::new(12).unwrap();
    let mut right = HyperLogLog::new(12).unwrap();
    for value in 0_u64..7_500 {
        left.add(&value);
    }
    for value in 7_500_u64..15_000 {
        right.add(&value);
    }
    left.merge(&right).unwrap();
    let estimate = count(&left);
    let exact = 15_000_u64;
    let relative_error = (estimate as f64 - exact as f64).abs() / exact as f64;
    assert!(
        relative_error <= 0.12,
        "estimate={estimate} exact={exact} rel_error={relative_error}"
    );
}

#[test]
fn merge_of_partitions_equals_full_stream_sketch() {
    let mut left = HyperLogLog::new(10).unwrap();
    let mut right = HyperLogLog::new(10).unwrap();
    let mut full = HyperLogLog::new(10).unwrap();
    for value in 0_u64..3_000 {
        full.add(&value);
        if value % 2 == 0 {
            left.add(&value);
        } else {
            right.add(&value);
        }
    }
    left.merge(&right).unwrap();
    assert_eq!(left.register_summary(), full.register_summary());
}

#[test]
fn merge_rejects_mismatched_precision() {
    let mut left = HyperLogLog::new(10).unwrap();
    let right = HyperLogLog::new(11).unwrap();
    assert!(left.merge(&right).is_err());
}

#[test]
fn clear_removes_state() {
    let mut hll = HyperLogLog::new(12).unwrap();
    for value in 0..500_u64 {
        hll.add(&value);
    }
    assert!(count(&hll) > 0);
    hll.clear();
    assert_eq!(count(&hll), 0);
    assert!(hll.is_empty());
}

#[test]
fn shape_accessors_report_precision() {
    let hll = HyperLogLog::new(10).unwrap();
    assert_eq!(hll.precision(), 10);
    assert_eq!(hll.register_count(), 1_024);
}
