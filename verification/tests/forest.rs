use rp_forest::ann::Ann;
use rp_forest::store::EmbeddingStore;

/// An in-memory store over f32 rows with the Euclidean metric; scalars are
/// carried as bit patterns.
struct VecStore {
    rows: Vec<Vec<f32>>,
}

fn euclid_bits(a: &Vec<u32>, b: &Vec<u32>) -> u32 {
    let mut acc: f32 = 0.0;
    let n = if a.len() <= b.len() { a.len() } else { b.len() };
    for i in 0..n {
        let d = f32::from_bits(a[i]) - f32::from_bits(b[i]);
        acc += d * d;
    }
    acc.sqrt().to_bits()
}

fn to_bits_row(row: &Vec<f32>) -> Vec<u32> {
    row.iter().map(|x| x.to_bits()).collect()
}

impl EmbeddingStore for VecStore {
    fn len(&self) -> usize {
        self.rows.len()
    }

    fn dims(&self) -> usize {
        if self.rows.is_empty() {
            0
        } else {
            self.rows[0].len()
        }
    }

    fn get_embedding(&self, id: usize) -> Vec<u32> {
        to_bits_row(&self.rows[id])
    }

    fn distance(&self, a: &Vec<u32>, b: &Vec<u32>) -> u32 {
        euclid_bits(a, b)
    }

    fn distance_to_query(&self, id: usize, query: &Vec<u32>) -> u32 {
        euclid_bits(&self.get_embedding(id), query)
    }

    fn scalar_add(&self, a: u32, b: u32) -> u32 {
        (f32::from_bits(a) + f32::from_bits(b)).to_bits()
    }

    fn scalar_sub(&self, a: u32, b: u32) -> u32 {
        (f32::from_bits(a) - f32::from_bits(b)).to_bits()
    }

    fn scalar_mul(&self, a: u32, b: u32) -> u32 {
        (f32::from_bits(a) * f32::from_bits(b)).to_bits()
    }

    fn scalar_div(&self, a: u32, b: u32) -> u32 {
        (f32::from_bits(a) / f32::from_bits(b)).to_bits()
    }

    fn scalar_of_usize(&self, n: usize) -> u32 {
        (n as f32).to_bits()
    }
}

fn store(rows: Vec<Vec<f32>>) -> VecStore {
    VecStore { rows }
}

/// Every leaf id of every tree, gathered by walking the arenas.
fn all_leaf_ids_of_tree(ann: &Ann, t: usize) -> Vec<usize> {
    let mut ids = Vec::new();
    for idx in 0..ann.tree_size(t) {
        if ann.node_is_leaf(t, idx) {
            ids.extend(ann.leaf_ids(t, idx));
        }
    }
    ids
}

/// Depth recomputed from the arena by recursion over the getters.
fn walk_depth(ann: &Ann, t: usize, idx: usize) -> usize {
    match ann.split_children(t, idx) {
        None => 1,
        Some((above, below)) => {
            let da = walk_depth(ann, t, above);
            let db = walk_depth(ann, t, below);
            1 + if da >= db { da } else { db }
        }
    }
}

fn unit_vectors(n: usize, dims: usize, seed: u64) -> Vec<Vec<f32>> {
    // a small deterministic generator is enough for test data
    let mut state = seed.wrapping_mul(2862933555777941757).wrapping_add(3037000493);
    let mut rows = Vec::new();
    for _ in 0..n {
        let mut row = Vec::new();
        let mut norm: f32 = 0.0;
        for _ in 0..dims {
            state = state.wrapping_mul(2862933555777941757).wrapping_add(3037000493);
            let v = ((state >> 33) as f32) / ((1u64 << 31) as f32) - 1.0;
            norm += v * v;
            row.push(v);
        }
        let norm = norm.sqrt().max(1e-6);
        rows.push(row.iter().map(|v| v / norm).collect());
    }
    rows
}

#[test]
fn leaf_cutoff_triggers_immediately() {
    let es = store(vec![vec![1.0, 0.0], vec![0.0, 1.0], vec![-1.0, 0.0]]);
    let mut ann = Ann::new();
    ann.fit(&es, 1, 5, None, None, None, 7).unwrap();
    assert_eq!(ann.num_trees(), 1);
    assert_eq!(ann.tree_size(0), 1);
    assert!(ann.node_is_leaf(0, 0));
    // the cutoff fires before any split: one leaf, ids kept in slice order
    assert_eq!(ann.leaf_ids(0, 0), vec![0, 1, 2]);
    assert_eq!(ann.depth(), vec![1]);
    let q: Vec<u32> = vec![0.0f32.to_bits(), 0.0f32.to_bits()];
    assert_eq!(ann.predict_leaf_indices(&es, &q), vec![0]);
}

#[test]
fn degenerate_all_on_one_side() {
    // identical embeddings: the chosen plane puts every point above, and the
    // builder must close the whole range off as one leaf
    let es = store(vec![vec![1.0, 1.0]; 4]);
    let mut ann = Ann::new();
    ann.fit(&es, 1, 2, None, None, None, 11).unwrap();
    assert_eq!(ann.tree_size(0), 1);
    assert!(ann.node_is_leaf(0, 0));
    let mut ids = ann.leaf_ids(0, 0);
    ids.sort();
    assert_eq!(ids, vec![0, 1, 2, 3]);
    assert_eq!(ann.depth(), vec![1]);
}

#[test]
fn median_threshold_split() {
    let rows = vec![vec![1.0, 0.0], vec![2.0, 0.0], vec![3.0, 0.0], vec![4.0, 0.0]];
    let es = store(rows);
    // the sampled median must fall between the second and third point; scan
    // for the first seed whose draws do, then hold the build to the law
    let mut found = None;
    for seed in 0..1000u64 {
        let mut ann = Ann::new();
        ann.fit(&es, 1, 2, Some(0), Some(4), None, seed).unwrap();
        let root = ann.tree_size(0) - 1;
        if let Some((above, below)) = ann.split_children(0, root) {
            if ann.node_is_leaf(0, above) && ann.node_is_leaf(0, below) {
                let mut a = ann.leaf_ids(0, above);
                let mut b = ann.leaf_ids(0, below);
                a.sort();
                b.sort();
                if (a == vec![0, 1] && b == vec![2, 3]) || (a == vec![2, 3] && b == vec![0, 1]) {
                    found = Some(seed);
                    break;
                }
            }
        }
    }
    let seed = found.expect("no seed separated the two middle points");
    // rebuilding with the found seed gives the same split again
    let mut ann = Ann::new();
    ann.fit(&es, 1, 2, Some(0), Some(4), None, seed).unwrap();
    let root = ann.tree_size(0) - 1;
    let (above, below) = ann.split_children(0, root).unwrap();
    let mut a = ann.leaf_ids(0, above);
    let mut b = ann.leaf_ids(0, below);
    a.sort();
    b.sort();
    assert!(
        (a == vec![0, 1] && b == vec![2, 3]) || (a == vec![2, 3] && b == vec![0, 1]),
        "the rebuilt root separates the two middle points the same way"
    );
}

#[test]
fn query_of_stored_point() {
    let rows = unit_vectors(5, 4, 99);
    let es = store(rows);
    let mut ann = Ann::new();
    ann.fit(&es, 1, 1, None, None, None, 3).unwrap();
    for x in 0..5usize {
        let q = es.get_embedding(x);
        let r = ann.predict(&es, &q, 1, Some(5));
        assert_eq!(r.len(), 1);
        assert_eq!(r[0].1, x);
        assert_eq!(f32::from_bits(r[0].0), 0.0);
    }
}

#[test]
fn knn_recovers_nearest() {
    let rows = unit_vectors(50, 8, 2024);
    let es = store(rows);
    let mut ann = Ann::new();
    ann.fit(&es, 1, 1, None, None, None, 5).unwrap();
    for x in 0..50usize {
        let q = es.get_embedding(x);
        let r = ann.predict(&es, &q, 1, Some(50));
        assert_eq!(r.len(), 1);
        assert_eq!(r[0].1, x, "query of stored vector {} found {}", x, r[0].1);
    }
}

#[test]
fn dedup_across_trees() {
    let rows = unit_vectors(10, 4, 5150);
    let es = store(rows);
    let mut ann = Ann::new();
    ann.fit(&es, 4, 3, None, None, None, 17).unwrap();
    let x = 7usize;
    let q = es.get_embedding(x);
    let r = ann.predict(&es, &q, 5, Some(10));
    assert!(r.len() <= 5);
    assert_eq!(r[0].1, x, "the stored point must come first");
    let occurrences = r.iter().filter(|nd| nd.1 == x).count();
    assert_eq!(occurrences, 1, "every id appears once after fusion");
}

#[test]
fn predict_is_sorted_and_unique() {
    let rows = unit_vectors(40, 6, 31);
    let es = store(rows);
    let mut ann = Ann::new();
    ann.fit(&es, 3, 4, None, None, None, 23).unwrap();
    let q = to_bits_row(&unit_vectors(1, 6, 77)[0]);
    let r = ann.predict(&es, &q, 10, Some(40));
    assert!(r.len() <= 10);
    for w in r.windows(2) {
        let (d0, i0) = (f32::from_bits(w[0].0), w[0].1);
        let (d1, i1) = (f32::from_bits(w[1].0), w[1].1);
        assert!(d0 < d1 || (d0 == d1 && i0 < i1), "ascending by (distance, id)");
    }
    for i in 0..r.len() {
        for j in (i + 1)..r.len() {
            assert_ne!(r[i].1, r[j].1, "ids are unique");
        }
    }
}

#[test]
fn determinism_under_fixed_seed() {
    let rows = unit_vectors(30, 5, 8);
    let es = store(rows);
    let mut a = Ann::new();
    let mut b = Ann::new();
    a.fit(&es, 3, 4, Some(3), Some(10), None, 424242).unwrap();
    b.fit(&es, 3, 4, Some(3), Some(10), None, 424242).unwrap();
    assert_eq!(a.num_trees(), b.num_trees());
    for t in 0..a.num_trees() {
        assert_eq!(a.tree_size(t), b.tree_size(t));
        for idx in 0..a.tree_size(t) {
            assert_eq!(a.node_is_leaf(t, idx), b.node_is_leaf(t, idx));
            assert_eq!(a.leaf_ids(t, idx), b.leaf_ids(t, idx));
            assert_eq!(a.split_children(t, idx), b.split_children(t, idx));
        }
    }
}

#[test]
fn monotone_improvement() {
    let rows = unit_vectors(60, 6, 300);
    let es = store(rows);
    let mut ann = Ann::new();
    ann.fit(&es, 2, 5, None, None, None, 19).unwrap();
    let q = to_bits_row(&unit_vectors(1, 6, 400)[0]);
    let mut last_best = f32::INFINITY;
    for min_search in [1usize, 5, 10, 20, 60] {
        let r = ann.predict(&es, &q, 1, Some(min_search));
        assert!(!r.is_empty());
        let best = f32::from_bits(r[0].0);
        assert!(
            best <= last_best,
            "more search must not worsen the best distance: {} then {}",
            last_best,
            best
        );
        last_best = best;
    }
}

#[test]
fn leaves_partition_the_input() {
    let rows = unit_vectors(25, 4, 1234);
    let es = store(rows);
    let mut ann = Ann::new();
    ann.fit(&es, 3, 4, None, None, None, 55).unwrap();
    for t in 0..3 {
        let mut ids = all_leaf_ids_of_tree(&ann, t);
        ids.sort();
        let want: Vec<usize> = (0..25).collect();
        assert_eq!(ids, want, "every id stands in exactly one leaf of tree {}", t);
        // the root is the last element and every split points backward
        for idx in 0..ann.tree_size(t) {
            if let Some((above, below)) = ann.split_children(t, idx) {
                assert!(above < idx && below < idx && above != below);
            }
        }
    }
}

#[test]
fn explicit_subset_is_indexed() {
    let rows = unit_vectors(20, 4, 77);
    let es = store(rows);
    let mut ann = Ann::new();
    ann.fit(&es, 2, 3, None, None, Some(vec![2, 3, 5, 7, 11, 13]), 9).unwrap();
    for t in 0..2 {
        let mut ids = all_leaf_ids_of_tree(&ann, t);
        ids.sort();
        assert_eq!(ids, vec![2, 3, 5, 7, 11, 13]);
    }
}

#[test]
fn depth_matches_longest_path() {
    let rows = unit_vectors(40, 5, 2121);
    let es = store(rows);
    let mut ann = Ann::new();
    ann.fit(&es, 2, 3, None, None, None, 37).unwrap();
    let depths = ann.depth();
    assert_eq!(depths.len(), 2);
    for t in 0..2 {
        let root = ann.tree_size(t) - 1;
        assert_eq!(depths[t], walk_depth(&ann, t, root));
    }
}

#[test]
fn leaf_indices_refer_to_leaves() {
    let rows = unit_vectors(30, 5, 606);
    let es = store(rows);
    let mut ann = Ann::new();
    ann.fit(&es, 3, 4, None, None, None, 13).unwrap();
    let q = to_bits_row(&unit_vectors(1, 5, 707)[0]);
    let idxs = ann.predict_leaf_indices(&es, &q);
    assert_eq!(idxs.len(), 3);
    for t in 0..3 {
        assert!(ann.node_is_leaf(t, idxs[t]));
    }
}

#[test]
fn leaf_path_length_law() {
    let rows = unit_vectors(30, 5, 505);
    let es = store(rows);
    let mut ann = Ann::new();
    ann.fit(&es, 3, 4, None, None, None, 29).unwrap();
    let depths = ann.depth();
    let q = to_bits_row(&unit_vectors(1, 5, 808)[0]);
    let paths = ann.predict_leaf_paths(&es, &q);
    assert_eq!(paths.len(), 3);
    for t in 0..3 {
        // path of internal nodes, leaf excluded: one step short of a
        // root-to-leaf node count, never beyond the tree's depth
        assert!(paths[t].len() + 1 <= depths[t]);
        // the path starts at the root and steps to children
        if !paths[t].is_empty() {
            assert_eq!(paths[t][0], ann.tree_size(t) - 1);
            for w in paths[t].windows(2) {
                let (above, below) = ann.split_children(t, w[0]).unwrap();
                assert!(w[1] == above || w[1] == below);
            }
        }
    }
}

#[test]
fn predict_with_zero_k_is_empty() {
    let rows = unit_vectors(10, 3, 40);
    let es = store(rows);
    let mut ann = Ann::new();
    ann.fit(&es, 2, 3, None, None, None, 77).unwrap();
    let q = to_bits_row(&unit_vectors(1, 3, 41)[0]);
    assert!(ann.predict(&es, &q, 0, None).is_empty());
}

#[test]
fn empty_input_is_rejected() {
    let es = store(vec![vec![1.0, 0.0], vec![0.0, 1.0]]);
    let mut ann = Ann::new();
    assert!(ann.fit(&es, 2, 3, None, None, Some(vec![]), 5).is_err());
    assert_eq!(ann.num_trees(), 0, "a rejected fit builds nothing");

    let empty = store(Vec::new());
    let mut ann = Ann::new();
    assert!(ann.fit(&empty, 2, 3, None, None, None, 5).is_err());
    assert_eq!(ann.num_trees(), 0);
}
