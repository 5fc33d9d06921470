use rp_forest::topk::{TopK, NodeDistance, DistanceFromEntity};

#[test]
fn test_top_k() {
    let mut top_k = TopK::new(3);
    top_k.push(1, 0.1f32.to_bits());
    top_k.push(2, 0.2f32.to_bits());
    top_k.push(3, 0.3f32.to_bits());
    top_k.push(4, 0.15f32.to_bits());
    top_k.push(5, 0.01f32.to_bits());

    let results = top_k.into_sorted();

    println!("results: {:?}", results);
    assert_eq!(results[0], DistanceFromEntity(0.01f32.to_bits(), 5));
    assert_eq!(results[1], DistanceFromEntity(0.1f32.to_bits(), 1));
    assert_eq!(results[2], DistanceFromEntity(0.15f32.to_bits(), 4));
}

#[test]
fn top_k_tie_keeps_earlier_entry() {
    // a later entry whose distance equals the held maximum is dropped
    let mut top_k = TopK::new(2);
    top_k.push(10, 0.5f32.to_bits());
    top_k.push(11, 0.2f32.to_bits());
    top_k.push(12, 0.5f32.to_bits());
    let results = top_k.into_sorted();
    assert_eq!(results.len(), 2);
    assert_eq!(results[0], DistanceFromEntity(0.2f32.to_bits(), 11));
    assert_eq!(results[1], DistanceFromEntity(0.5f32.to_bits(), 10));
}

#[test]
fn top_k_len_is_capped() {
    let mut top_k = TopK::new(2);
    for id in 0..10usize {
        top_k.push(id, (id as f32).to_bits());
    }
    assert_eq!(top_k.len(), 2);
    let results = top_k.into_sorted();
    assert_eq!(results[0], DistanceFromEntity(0.0f32.to_bits(), 0));
    assert_eq!(results[1], DistanceFromEntity(1.0f32.to_bits(), 1));
}

#[test]
fn top_k_extend_folds_in() {
    let mut a = TopK::new(3);
    a.push(1, 0.4f32.to_bits());
    a.push(2, 0.6f32.to_bits());
    let mut b = TopK::new(3);
    b.push(3, 0.1f32.to_bits());
    b.push(4, 0.9f32.to_bits());
    a.extend(b);
    let results = a.into_sorted();
    assert_eq!(results.len(), 3);
    assert_eq!(results[0], DistanceFromEntity(0.1f32.to_bits(), 3));
    assert_eq!(results[1], DistanceFromEntity(0.4f32.to_bits(), 1));
    assert_eq!(results[2], DistanceFromEntity(0.6f32.to_bits(), 2));
}

#[test]
fn to_tup_round_trip() {
    let nd = NodeDistance::new(0.25f32.to_bits(), 9);
    assert_eq!(nd.to_tup_cloned(), (9, 0.25f32.to_bits()));
    let (id, d) = nd.to_tup();
    assert_eq!((*id, d), (9, 0.25f32.to_bits()));
}
