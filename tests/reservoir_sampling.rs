use sketches::reservoir_sampling::ReservoirSampling;

#[test]
fn reservoir_sampling_constructor_validates_capacity() {
    assert!(ReservoirSampling::<u64>::new(0).is_err());
    assert!(ReservoirSampling::<u64>::new(10).is_ok());
}

#[test]
fn sample_size_never_exceeds_capacity() {
    let mut reservoir = ReservoirSampling::new(64).unwrap();
    for value in 0_u64..10_000 {
        reservoir.add(value);
    }
    assert_eq!(reservoir.len(), 64);
    assert_eq!(reservoir.seen(), 10_000);
}

#[test]
fn short_stream_keeps_all_values() {
    let mut reservoir = ReservoirSampling::new(10).unwrap();
    reservoir.extend(vec![1_u64, 2, 3, 4]);
    assert_eq!(reservoir.len(), 4);
    assert_eq!(reservoir.samples(), &[1, 2, 3, 4]);
}

#[test]
fn deterministic_for_same_input_stream() {
    let mut left = ReservoirSampling::new(50).unwrap();
    let mut right = ReservoirSampling::new(50).unwrap();

    for value in 0_u64..5_000 {
        left.add(value);
        right.add(value);
    }

    assert_eq!(left.samples(), right.samples());
}

#[test]
fn reservoir_sampling_clear_resets_state() {
    let mut reservoir = ReservoirSampling::new(8).unwrap();
    reservoir.extend((0_u64..100).collect());
    reservoir.clear();
    assert_eq!(reservoir.len(), 0);
    assert_eq!(reservoir.seen(), 0);
    assert!(reservoir.is_empty());
}

#[test]
fn samples_come_from_the_stream_and_into_samples_hands_them_back() {
    let mut reservoir = ReservoirSampling::new(5).unwrap();
    reservoir.extend((100_u64..200).collect());
    assert_eq!(reservoir.capacity(), 5);
    let samples = reservoir.into_samples();
    assert_eq!(samples.len(), 5);
    assert!(samples.iter().all(|&value| (100..200).contains(&value)));
}
