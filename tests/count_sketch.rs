use sketches::count_sketch::CountSketch;

#[test]
fn count_sketch_constructor_from_error_bounds_creates_non_zero_dimensions() {
    // epsilon = 0.05, delta = 0.01: width = ceil(3 / eps^2), depth = ceil(ln(1 / delta)).
    let sketch = CountSketch::with_dimensions(1_200, 5).expect("valid bounds");
    assert!(sketch.width() > 0);
    assert!(sketch.depth() > 0);
}

#[test]
fn constructor_rejects_invalid_parameters() {
    assert!(CountSketch::with_dimensions(0, 2).is_err());
    assert!(CountSketch::with_dimensions(2, 0).is_err());
    assert!(CountSketch::with_dimensions(usize::MAX, 2).is_err());
}

#[test]
fn estimate_is_reasonable_with_noise() {
    let mut sketch = CountSketch::with_dimensions(2_048, 7).unwrap();

    for _ in 0..5_000 {
        sketch.increment(&"hot-key");
    }
    for value in 0_u64..50_000 {
        sketch.increment(&value);
    }

    let estimate = sketch.estimate(&"hot-key");
    assert!(estimate > 3_500 && estimate < 6_500, "estimate={estimate}");
}

#[test]
fn signed_updates_are_supported() {
    let mut sketch = CountSketch::with_dimensions(1_024, 7).unwrap();
    sketch.add(&"x", 10);
    sketch.add(&"x", -3);
    let estimate = sketch.estimate(&"x");
    assert!(estimate >= 5 && estimate <= 9, "estimate={estimate}");
}

#[test]
fn single_item_estimate_is_exact() {
    let mut sketch = CountSketch::with_dimensions(1_024, 7).unwrap();
    sketch.add(&"x", 10);
    sketch.add(&"x", -3);
    assert_eq!(sketch.estimate(&"x"), 7);
    assert_eq!(sketch.total_update_magnitude(), 13);
}

#[test]
fn even_depth_median_averages_middle_rows() {
    let mut sketch = CountSketch::with_dimensions(4_096, 4).unwrap();
    sketch.add(&"solo", 9);
    assert_eq!(sketch.estimate(&"solo"), 9);
    sketch.decrement(&"solo");
    assert_eq!(sketch.estimate(&"solo"), 8);
}

#[test]
fn zero_delta_is_ignored() {
    let mut sketch = CountSketch::with_dimensions(16, 3).unwrap();
    sketch.add(&"x", 0);
    assert!(sketch.is_empty());
    assert_eq!(sketch.estimate(&"x"), 0);
}

#[test]
fn extreme_updates_saturate() {
    let mut sketch = CountSketch::with_dimensions(64, 3).unwrap();
    sketch.add(&"big", i64::MAX);
    sketch.add(&"big", i64::MAX);
    assert_eq!(sketch.estimate(&"big"), i64::MAX);
    sketch.add(&"min", i64::MIN);
    assert_eq!(sketch.total_update_magnitude(), u64::MAX);
}

#[test]
fn merge_combines_two_sketches() {
    let mut left = CountSketch::with_dimensions(512, 5).unwrap();
    let mut right = CountSketch::with_dimensions(512, 5).unwrap();

    left.add(&"alpha", 100);
    right.add(&"alpha", 50);
    left.merge(&right).unwrap();
    assert_eq!(left.estimate(&"alpha"), 150);
}

#[test]
fn merge_rejects_mismatched_shape() {
    let mut left = CountSketch::with_dimensions(256, 4).unwrap();
    let right = CountSketch::with_dimensions(128, 4).unwrap();
    assert!(left.merge(&right).is_err());
}

#[test]
fn count_sketch_clear_resets_state() {
    let mut sketch = CountSketch::with_dimensions(128, 4).unwrap();
    sketch.add(&"item", 7);
    assert!(!sketch.is_empty());
    sketch.clear();
    assert_eq!(sketch.estimate(&"item"), 0);
    assert!(sketch.is_empty());
}
