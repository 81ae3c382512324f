use sketches::lsh_minhash::MinHashLshIndex;
use sketches::minhash::MinHash;

fn signature_for_range(start: u64, end: u64, num_hashes: usize) -> MinHash {
    let mut signature = MinHash::new(num_hashes).unwrap();
    for value in start..end {
        signature.add(&value);
    }
    signature
}

#[test]
fn lsh_minhash_constructor_validates_parameters() {
    assert!(MinHashLshIndex::new(0, 8).is_err());
    assert!(MinHashLshIndex::new(64, 0).is_err());
    assert!(MinHashLshIndex::new(63, 8).is_err());
    assert!(MinHashLshIndex::new(64, 8).is_ok());
}

#[test]
fn shape_accessors_report_configuration() {
    let index = MinHashLshIndex::new(96, 12).unwrap();
    assert_eq!(index.num_hashes(), 96);
    assert_eq!(index.bands(), 12);
    assert_eq!(index.rows_per_band(), 8);
}

#[test]
fn insert_rejects_incompatible_signature() {
    let mut index = MinHashLshIndex::new(64, 8).unwrap();
    let signature = signature_for_range(0, 1_000, 32);
    assert!(index.insert(1, &signature).is_err());
}

#[test]
fn queries_reject_incompatible_signature() {
    let index = MinHashLshIndex::new(64, 8).unwrap();
    let query = signature_for_range(0, 1_000, 32);
    assert!(index.query_candidates(&query).is_err());
    assert!(index.query_top_k_scaled(&query, 5).is_err());
}

#[test]
fn insert_and_contains_id_work() {
    let mut index = MinHashLshIndex::new(64, 8).unwrap();
    let signature = signature_for_range(0, 1_000, 64);
    index.insert(10, &signature).unwrap();
    assert!(index.contains_id(&10));
    assert_eq!(index.len(), 1);
    assert!(!index.is_empty());
}

#[test]
fn remove_existing_and_missing_ids() {
    let mut index = MinHashLshIndex::new(64, 8).unwrap();
    let signature = signature_for_range(0, 1_000, 64);
    index.insert(10, &signature).unwrap();

    assert!(index.remove(&10));
    assert!(!index.remove(&10));
    assert!(index.is_empty());
}

#[test]
fn insert_replaces_existing_id_signature() {
    let mut index = MinHashLshIndex::new(128, 32).unwrap();

    let first = signature_for_range(0, 10_000, 128);
    let second = signature_for_range(20_000, 30_000, 128);
    index.insert(7, &first).unwrap();
    index.insert(7, &second).unwrap();

    assert_eq!(index.len(), 1);
    let top = index.query_top_k_scaled(&second, 1).unwrap();
    assert_eq!(top.len(), 1);
    assert_eq!(top[0].0, 7);
    assert!(top[0].1 as f64 / 128.0 > 0.9);
}

#[test]
fn query_candidates_finds_high_overlap_item() {
    let mut index = MinHashLshIndex::new(128, 32).unwrap();

    let doc_a = signature_for_range(0, 10_000, 128);
    let doc_b = signature_for_range(30_000, 40_000, 128);
    let query = signature_for_range(1_000, 11_000, 128);

    index.insert(1, &doc_a).unwrap();
    index.insert(2, &doc_b).unwrap();

    let candidates = index.query_candidates(&query).unwrap();
    assert!(candidates.contains(&1));
}

#[test]
fn query_top_k_returns_descending_scores() {
    let mut index = MinHashLshIndex::new(128, 32).unwrap();

    let very_close = signature_for_range(0, 10_000, 128);
    let medium = signature_for_range(5_000, 15_000, 128);
    let far = signature_for_range(25_000, 35_000, 128);
    let query = signature_for_range(500, 10_500, 128);

    index.insert(1, &very_close).unwrap();
    index.insert(2, &medium).unwrap();
    index.insert(3, &far).unwrap();

    let top = index.query_top_k_scaled(&query, 3).unwrap();
    assert!(!top.is_empty());
    for pair in top.windows(2) {
        assert!(pair[0].1 >= pair[1].1);
    }
    assert_eq!(top[0].0, 1);
}

#[test]
fn query_top_k_respects_k_and_zero_k() {
    let mut index = MinHashLshIndex::new(64, 8).unwrap();
    let signature = signature_for_range(0, 10_000, 64);
    index.insert(1, &signature).unwrap();
    index.insert(2, &signature).unwrap();

    assert!(index.query_top_k_scaled(&signature, 0).unwrap().is_empty());
    assert!(index.query_top_k_scaled(&signature, 1).unwrap().len() <= 1);
    assert_eq!(index.query_top_k_scaled(&signature, 5).unwrap(), vec![(1, 64), (2, 64)]);
}

#[test]
fn identical_signature_is_always_a_candidate() {
    let mut index = MinHashLshIndex::new(64, 8).unwrap();
    let signature = signature_for_range(0, 5_000, 64);
    index.insert(42, &signature).unwrap();

    let candidates = index.query_candidates(&signature).unwrap();
    assert!(candidates.contains(&42));
}

#[test]
fn clear_resets_index_state() {
    let mut index = MinHashLshIndex::new(64, 8).unwrap();
    let signature = signature_for_range(0, 2_000, 64);

    index.insert(1, &signature).unwrap();
    index.insert(2, &signature).unwrap();
    assert_eq!(index.len(), 2);

    index.clear();
    assert!(index.is_empty());
    assert_eq!(index.len(), 0);
    assert!(index.query_candidates(&signature).unwrap().is_empty());
}

#[test]
fn empty_signatures_score_full_against_empty_query() {
    let mut index = MinHashLshIndex::new(16, 4).unwrap();
    let empty = MinHash::new(16).unwrap();
    let full = signature_for_range(0, 100, 16);
    index.insert(1, &empty).unwrap();
    index.insert(2, &full).unwrap();
    let top = index.query_top_k_scaled(&empty, 2).unwrap();
    assert_eq!(top[0], (1, 16));
}
