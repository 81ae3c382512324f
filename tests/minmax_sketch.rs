use sketches::minmax_sketch::MinMaxSketch;

#[test]
fn minmax_sketch_constructor_from_error_bounds_creates_non_zero_dimensions() {
    // epsilon = 0.01, delta = 0.01: width = ceil(e / eps), depth = ceil(ln(1 / delta)).
    let sketch = MinMaxSketch::with_dimensions(272, 5).expect("valid bounds");
    assert!(sketch.width() > 0);
    assert!(sketch.depth() > 0);
}

#[test]
fn with_dimensions_rejects_zero_sizes() {
    assert!(MinMaxSketch::with_dimensions(0, 1).is_err());
    assert!(MinMaxSketch::with_dimensions(1, 0).is_err());
}

#[test]
fn with_dimensions_rejects_overflowing_table() {
    assert!(MinMaxSketch::with_dimensions(usize::MAX, 2).is_err());
}

#[test]
fn estimate_is_monotonic_after_updates() {
    let mut sketch = MinMaxSketch::with_dimensions(128, 5).unwrap();
    let mut previous = 0_u64;
    for _ in 0..50 {
        sketch.increment(&"user:42");
        let current = sketch.estimate(&"user:42");
        assert!(current >= previous);
        previous = current;
    }
}

#[test]
fn estimate_interval_is_ordered() {
    let mut sketch = MinMaxSketch::with_dimensions(128, 4).unwrap();
    sketch.add(&"alpha", 7);
    let (min_estimate, max_estimate) = sketch.estimate_interval(&"alpha");
    assert!(min_estimate <= max_estimate);
}

#[test]
fn estimate_is_never_below_exact_count_in_small_stream() {
    let mut sketch = MinMaxSketch::with_dimensions(512, 6).unwrap();
    for _ in 0..30 {
        sketch.increment(&"a");
    }
    for _ in 0..7 {
        sketch.increment(&"b");
    }
    for _ in 0..13 {
        sketch.increment(&"c");
    }

    assert!(sketch.estimate(&"a") >= 30);
    assert!(sketch.estimate(&"b") >= 7);
    assert!(sketch.estimate(&"c") >= 13);
}

#[test]
fn single_item_counts_are_exact() {
    let mut sketch = MinMaxSketch::with_dimensions(64, 4).unwrap();
    sketch.add(&"only", 5);
    sketch.add(&"only", 0);
    assert_eq!(sketch.estimate(&"only"), 5);
    assert_eq!(sketch.max_estimate(&"only"), 5);
    assert_eq!(sketch.total_count(), 5);
}

#[test]
fn clear_resets_all_state() {
    let mut sketch = MinMaxSketch::with_dimensions(64, 4).unwrap();
    sketch.add(&"key", 10);
    assert!(!sketch.is_empty());
    sketch.clear();
    assert_eq!(sketch.total_count(), 0);
    assert_eq!(sketch.estimate(&"key"), 0);
    assert!(sketch.is_empty());
}

#[test]
fn merge_combines_sketches() {
    let mut left = MinMaxSketch::with_dimensions(256, 5).unwrap();
    let mut right = MinMaxSketch::with_dimensions(256, 5).unwrap();

    left.add(&"hot", 10);
    right.add(&"hot", 15);
    right.add(&"cold", 4);

    left.merge(&right).expect("compatible sketches");

    assert!(left.estimate(&"hot") >= 25);
    assert!(left.estimate(&"cold") >= 4);
    assert!(left.total_count() >= 29);
}

#[test]
fn merge_rejects_mismatched_dimensions() {
    let mut left = MinMaxSketch::with_dimensions(64, 4).unwrap();
    let right = MinMaxSketch::with_dimensions(65, 4).unwrap();
    assert!(left.merge(&right).is_err());
}

#[test]
fn saturating_addition_avoids_overflow() {
    let mut sketch = MinMaxSketch::with_dimensions(32, 4).unwrap();
    sketch.add(&"overflow", u64::MAX);
    sketch.increment(&"overflow");

    assert_eq!(sketch.estimate(&"overflow"), u64::MAX);
    assert_eq!(sketch.total_count(), u64::MAX);
}
