use rand::SeedableRng;
use rand_xorshift::XorShiftRng;
use rp_forest::utils::{Counter, get_best_count};

#[test]
fn test_choose_best() {
    let counts = vec![0, 0, 1, 1, 1, 2];
    let mut rng = XorShiftRng::seed_from_u64(1);
    let best_count = get_best_count(&counts, &mut rng);
    assert_eq!(best_count, 1);
}

#[test]
fn test_choose_one() {
    let counts = vec![0, 0, 0];
    let mut rng = XorShiftRng::seed_from_u64(1);
    let best_count = get_best_count(&counts, &mut rng);
    assert_eq!(best_count, 0);
}

#[test]
fn test_choose_between() {
    let counts = vec![0, 1];
    let mut rng = XorShiftRng::seed_from_u64(1231232132);
    let best_count = get_best_count(&counts, &mut rng);
    assert_eq!(best_count, 0);
    let best_count = get_best_count(&counts, &mut rng);
    assert_eq!(best_count, 1);
    let best_count = get_best_count(&counts, &mut rng);
    assert_eq!(best_count, 1);
    let best_count = get_best_count(&counts, &mut rng);
    assert_eq!(best_count, 0);
}

#[test]
fn test_choose_last() {
    let counts = vec![0, 1, 1];
    let mut rng = XorShiftRng::seed_from_u64(1231232132);
    let best_count = get_best_count(&counts, &mut rng);
    assert_eq!(best_count, 1);
}

#[test]
fn test_choose_only() {
    let counts = vec![0, 0, 0];
    let mut rng = XorShiftRng::seed_from_u64(1231232132);
    let best_count = get_best_count(&counts, &mut rng);
    assert_eq!(best_count, 0);
}

#[test]
fn test_counter() {
    let counts = [0, 0, 0, 1, 2, 2, 3];
    let mut counter = Counter::new(&counts);
    assert_eq!(counter.next(), Some((0, 3)));
    assert_eq!(counter.next(), Some((1, 1)));
    assert_eq!(counter.next(), Some((2, 2)));
    assert_eq!(counter.next(), Some((3, 1)));
    assert_eq!(counter.next(), None);

    let counts = [];
    let mut counter = Counter::new(&counts);
    assert_eq!(counter.next(), None);

    let counts = [0];
    let mut counter = Counter::new(&counts);
    assert_eq!(counter.next(), Some((0, 1)));
    assert_eq!(counter.next(), None);
}

#[test]
fn feature_hasher_slots() {
    let hasher = rp_forest::utils::FeatureHasher::new(16);
    for feature in 0..100usize {
        for probe in 0..3usize {
            let (sign, idx) = hasher.hash(feature, probe);
            assert!(sign == 1 || sign == -1);
            assert!(idx < 16);
            // fixed keys within a process: the projection is repeatable
            assert_eq!(hasher.hash(feature, probe), (sign, idx));
        }
    }
}

#[test]
fn sign_index_reads_the_word() {
    assert_eq!(rp_forest::utils::sign_index_of(0, 5), (-1, 0));
    assert_eq!(rp_forest::utils::sign_index_of(1, 5), (1, 0));
    assert_eq!(rp_forest::utils::sign_index_of(13, 5), (1, 1));
    assert_eq!(rp_forest::utils::sign_index_of(24, 5), (-1, 2));
}
