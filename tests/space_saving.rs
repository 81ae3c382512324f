use sketches::space_saving::SpaceSaving;

#[test]
fn space_saving_constructor_validates_capacity() {
    assert!(SpaceSaving::<String>::new(0).is_err());
    assert!(SpaceSaving::<String>::new(4).is_ok());
}

#[test]
fn heavy_hitters_are_retained() {
    let mut sketch = SpaceSaving::new(5).unwrap();
    sketch.add("apple".to_string(), 5_000);
    sketch.add("banana".to_string(), 3_000);
    sketch.add("carrot".to_string(), 1_000);

    for value in 0..200_u64 {
        sketch.insert(format!("noise-{value}"));
    }

    let top = sketch.top_k(3);
    let names: Vec<_> = top.iter().map(|(item, _, _)| item.as_str()).collect();
    assert!(names.contains(&"apple"));
    assert!(names.contains(&"banana"));
}

#[test]
fn estimates_expose_error_bounds() {
    let mut sketch = SpaceSaving::new(2).unwrap();
    sketch.add("a".to_string(), 10);
    sketch.add("b".to_string(), 5);
    sketch.add("c".to_string(), 2);

    let estimate = sketch.estimate_with_error(&"c".to_string());
    if let Some((count, error)) = estimate {
        assert!(count >= error);
    }
}

#[test]
fn eviction_takes_over_smallest_counter() {
    let mut sketch = SpaceSaving::new(2).unwrap();
    sketch.add("a".to_string(), 10);
    sketch.add("b".to_string(), 5);
    sketch.add("c".to_string(), 2);
    assert_eq!(sketch.estimate_with_error(&"c".to_string()), Some((7, 5)));
    assert_eq!(sketch.lower_bound(&"c".to_string()), Some(2));
    assert_eq!(sketch.estimate(&"b".to_string()), None);
    assert_eq!(sketch.total_count(), 17);
    assert_eq!(sketch.tracked_items(), 2);
}

#[test]
fn top_k_sorts_by_count() {
    let mut sketch = SpaceSaving::new(4).unwrap();
    sketch.add(1_u64, 3);
    sketch.add(2_u64, 9);
    sketch.add(3_u64, 5);
    assert_eq!(sketch.top_k(2), vec![(2, 9, 0), (3, 5, 0)]);
    assert!(sketch.top_k(0).is_empty());
    assert_eq!(sketch.top_k(10).len(), 3);
}

#[test]
fn space_saving_merge_combines_observations() {
    let mut left = SpaceSaving::new(4).unwrap();
    let mut right = SpaceSaving::new(4).unwrap();

    left.add("alpha".to_string(), 50);
    right.add("alpha".to_string(), 30);
    right.add("beta".to_string(), 20);

    left.merge(&right).unwrap();
    let alpha_estimate = left.estimate(&"alpha".to_string()).unwrap();
    assert!(alpha_estimate >= 70);
}

#[test]
fn merge_rejects_mismatched_capacity() {
    let mut left: SpaceSaving<String> = SpaceSaving::new(4).unwrap();
    let right: SpaceSaving<String> = SpaceSaving::new(5).unwrap();
    assert!(left.merge(&right).is_err());
}

#[test]
fn space_saving_clear_resets_state() {
    let mut sketch = SpaceSaving::new(3).unwrap();
    sketch.add("x".to_string(), 10);
    assert!(!sketch.is_empty());
    sketch.clear();
    assert!(sketch.is_empty());
    assert_eq!(sketch.tracked_items(), 0);
}

#[test]
fn tracked_counts_bracket_true_counts() {
    let mut sketch = SpaceSaving::new(3).unwrap();
    let stream: Vec<(u64, u64)> = vec![(1, 4), (2, 1), (3, 2), (4, 5), (1, 3), (5, 1), (4, 2), (6, 7)];
    let mut truth = std::collections::HashMap::new();
    for &(item, count) in &stream {
        sketch.add(item, count);
        *truth.entry(item).or_insert(0_u64) += count;
    }
    for (item, count, error) in sketch.top_k(3) {
        let exact = truth[&item];
        assert!(count - error <= exact, "item={item} count={count} error={error} exact={exact}");
        assert!(exact <= count, "item={item} count={count} exact={exact}");
    }
    assert_eq!(sketch.total_count(), 25);
}
