use sketches::minhash::MinHash;

fn similarity(left: &MinHash, right: &MinHash) -> f64 {
    let (matches, positions) = left.jaccard_fraction(right).unwrap();
    matches as f64 / positions as f64
}

#[test]
fn constructor_validates_num_hashes() {
    assert!(MinHash::new(0).is_err());
    assert!(MinHash::new(64).is_ok());
}

#[test]
fn jaccard_estimate_is_reasonable_for_overlap() {
    let mut left = MinHash::new(256).unwrap();
    let mut right = MinHash::new(256).unwrap();
    for value in 0_u64..10_000 {
        left.add(&value);
    }
    for value in 5_000_u64..15_000 {
        right.add(&value);
    }
    let estimate = similarity(&left, &right);
    let exact = 5_000.0 / 15_000.0;
    assert!((estimate - exact).abs() < 0.15, "estimate={estimate} exact={exact}");
}

#[test]
fn identical_sets_have_high_similarity() {
    let mut left = MinHash::new(128).unwrap();
    let mut right = MinHash::new(128).unwrap();
    for value in 0_u64..5_000 {
        left.add(&value);
        right.add(&value);
    }
    let estimate = similarity(&left, &right);
    assert!(estimate > 0.90, "estimate={estimate}");
    assert_eq!(left.jaccard_fraction(&right).unwrap(), (128, 128));
}

#[test]
fn empty_semantics_are_supported() {
    let left = MinHash::new(64).unwrap();
    let mut right = MinHash::new(64).unwrap();
    right.add(&"x");
    assert_eq!(left.jaccard_fraction(&left).unwrap(), (1, 1));
    assert_eq!(left.jaccard_fraction(&right).unwrap(), (0, 1));
    assert_eq!(right.jaccard_fraction(&left).unwrap(), (0, 1));
}

#[test]
fn merge_uses_elementwise_min() {
    let mut left = MinHash::new(64).unwrap();
    let mut right = MinHash::new(64).unwrap();
    for value in 0_u64..1_000 {
        left.add(&value);
    }
    for value in 500_u64..1_500 {
        right.add(&value);
    }

    let mut merged = left.clone();
    merged.merge(&right).unwrap();

    for index in 0..merged.signature().len() {
        assert_eq!(
            merged.signature()[index],
            left.signature()[index].min(right.signature()[index])
        );
    }
}

#[test]
fn merge_rejects_incompatible_sketches() {
    let mut left = MinHash::new(64).unwrap();
    let right = MinHash::new(65).unwrap();
    assert!(left.merge(&right).is_err());
    assert!(left.jaccard_fraction(&right).is_err());
}

#[test]
fn minhash_clear_resets_state() {
    let mut sketch = MinHash::new(64).unwrap();
    sketch.add(&"alpha");
    sketch.clear();
    assert!(sketch.is_empty());
    assert!(sketch.signature().iter().all(|&value| value == u64::MAX));
}

#[test]
fn add_lowers_signature_and_marks_observed() {
    let mut sketch = MinHash::new(8).unwrap();
    assert_eq!(sketch.num_hashes(), 8);
    sketch.add(&42_u64);
    assert!(!sketch.is_empty());
    assert!(sketch.signature().iter().any(|&value| value < u64::MAX));
}
