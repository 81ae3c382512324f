use sketches::cuckoo_filter::CuckooFilter;

// Shapes that the rate-driven sizing gives at a 1% false-positive rate:
// 8-bit fingerprints, buckets = next_power_of_two(ceil(n / 4 / 0.9)), 500 kicks.
fn filter_for(expected_items: usize) -> CuckooFilter {
    let buckets = match expected_items {
        100 => 32,
        1_000 => 512,
        2_000 => 1_024,
        _ => panic!("no precomputed shape"),
    };
    CuckooFilter::with_parameters(buckets, 8, 500).unwrap()
}

#[test]
fn cuckoo_filter_constructor_validates_parameters() {
    assert!(CuckooFilter::with_parameters(3, 8, 100).is_err());
    assert!(CuckooFilter::with_parameters(8, 0, 100).is_err());
    assert!(CuckooFilter::with_parameters(8, 8, 0).is_err());
    assert!(CuckooFilter::with_parameters(0, 8, 100).is_err());
    assert!(CuckooFilter::with_parameters(8, 17, 100).is_err());
    assert!(CuckooFilter::with_parameters(8, 16, 1).is_ok());
}

#[test]
fn insert_contains_delete_roundtrip() {
    let mut filter = filter_for(1_000);
    assert!(filter.insert(&"alice"));
    assert!(filter.contains(&"alice"));
    assert!(filter.delete(&"alice"));
    assert!(!filter.contains(&"alice"));
}

#[test]
fn inserted_count_grows_with_successful_inserts() {
    let mut filter = filter_for(1_000);
    let before = filter.inserted_items();
    for value in 0_u64..300 {
        assert!(filter.insert(&value));
    }
    assert_eq!(filter.inserted_items(), before + 300);
}

#[test]
fn tiny_filter_eventually_refuses_insert() {
    let mut filter = CuckooFilter::with_parameters(2, 4, 50).unwrap();
    let mut accepted = 0;
    for value in 0_u64..100 {
        if filter.insert(&value) {
            accepted += 1;
        }
    }
    assert!(accepted < 100);
    assert!(accepted <= 8);
    assert_eq!(filter.inserted_items(), accepted);
}

#[test]
fn refused_inserts_lose_no_accepted_item() {
    let mut filter = CuckooFilter::with_parameters(2, 4, 50).unwrap();
    let mut accepted = Vec::new();
    for value in 0_u64..100 {
        if filter.insert(&value) {
            accepted.push(value);
        }
    }
    for value in accepted {
        assert!(filter.contains(&value));
    }
}

#[test]
fn cuckoo_filter_empirical_false_positive_rate_is_reasonable() {
    let mut filter = filter_for(2_000);
    for value in 0_u64..2_000 {
        assert!(filter.insert(&value));
    }

    let mut false_positives = 0_u64;
    let trials = 2_000_u64;
    for value in 20_000_u64..(20_000 + trials) {
        if filter.contains(&value) {
            false_positives += 1;
        }
    }

    let rate = false_positives as f64 / trials as f64;
    assert!(rate < 0.10, "rate={rate}");
}

#[test]
fn deleting_unknown_item_returns_false() {
    let mut filter = filter_for(100);
    assert!(!filter.delete(&"ghost"));
}

#[test]
fn clear_empties_filter() {
    let mut filter = filter_for(100);
    assert!(filter.insert(&"a"));
    assert!(!filter.is_empty());
    filter.clear();
    assert!(filter.is_empty());
    assert!(!filter.contains(&"a"));
}
