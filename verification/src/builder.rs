use vstd::prelude::*;
use vstd::seq_lib::*;
use vstd::multiset::Multiset;
use rand_xorshift::XorShiftRng;
use crate::NodeID;
use crate::bits::{total_key, key_of, gt_bits, neg_bits};
use crate::rng::rand_below;
use crate::store::{EmbeddingStore, dot, vec_sub, update_point, plane_bias};
use crate::tree::{Tree, Hyperplane, wf_node, wf_arena, node_ids, node_id_seq, ids_between};
use crate::tree::{subtree_ids, children_at_least, lemma_subtree_frame};
use crate::tree::{lemma_ids_between_single, lemma_ids_between_frame, lemma_ids_between_concat};

verus! {

/// How `fit` grows each tree.
pub struct AnnBuildConfig {
    pub(crate) max_nodes_per_leaf: usize,
    pub(crate) test_hp_per_split: usize,
    pub(crate) num_sampled_nodes_split_test: usize,
}

/// The ids of a run of working pairs, in order.
pub open spec fn ids_of(s: Seq<(NodeID, bool)>) -> Seq<NodeID> {
    s.map_values(|p: (NodeID, bool)| p.0)
}

/// All pairs of the range carry one and the same id.
pub open spec fn all_ids_equal(s: Seq<(NodeID, bool)>, lo: int, hi: int) -> bool {
    forall|j: int, m: int| lo <= j < hi && lo <= m < hi ==> s[j].0 == s[m].0
}

/// The id of a working pair drawn uniformly from the range.
fn choose_id(ids: &Vec<(NodeID, bool)>, lo: usize, hi: usize, rng: &mut XorShiftRng) -> (r: NodeID)
    requires
        lo < hi <= ids@.len(),
    ensures
        exists|j: int| lo <= j < hi && r == ids@[j].0,
{
    let j: usize = lo + rand_below(rng, hi - lo);
    ids[j].0
}

/// Two distinct ids of the range: the first drawn uniformly, the second
/// redrawn a bounded number of times and then found by scanning.  `None`
/// exactly when the range holds a single id, so no plane can separate it.
fn choose_two_distinct(
    ids: &Vec<(NodeID, bool)>,
    lo: usize,
    hi: usize,
    rng: &mut XorShiftRng,
) -> (r: Option<(NodeID, NodeID)>)
    requires
        lo < hi <= ids@.len(),
    ensures
        match r {
            Some(p) => p.0 != p.1 && (exists|j: int| lo <= j < hi && p.0 == ids@[j].0) && (
            exists|j: int| lo <= j < hi && p.1 == ids@[j].0),
            None => all_ids_equal(ids@, lo as int, hi as int),
        },
        all_ids_equal(ids@, lo as int, hi as int) ==> r is None,
{
    let a: NodeID = choose_id(ids, lo, hi, rng);
    let mut t: usize = 0;
    while t < 32
        invariant
            lo < hi <= ids@.len(),
            exists|j: int| lo <= j < hi && a == ids@[j].0,
        decreases 32 - t,
    {
        let b: NodeID = choose_id(ids, lo, hi, rng);
        if b != a {
            proof {
                let ja = choose|j: int| lo <= j < hi && a == ids@[j].0;
                let jb = choose|j: int| lo <= j < hi && b == ids@[j].0;
                assert(ids@[ja].0 != ids@[jb].0);
            }
            return Some((a, b));
        }
        t = t + 1;
    }
    let mut j: usize = lo;
    while j < hi
        invariant
            lo <= j <= hi <= ids@.len(),
            exists|m: int| lo <= m < hi && a == ids@[m].0,
            forall|m: int| lo <= m < j ==> ids@[m].0 == a,
        decreases hi - j,
    {
        if ids[j].0 != a {
            proof {
                let ja = choose|m: int| lo <= m < hi && a == ids@[m].0;
                assert(ids@[ja].0 != ids@[j as int].0);
            }
            return Some((a, ids[j].0));
        }
        j = j + 1;
    }
    None
}

/// Two-centroid streaming refinement: seeds two centroids on distinct ids,
/// then draws `iterations` sample ids, moving the nearer centroid (weighted
/// by its count) toward each sample.  Returns the difference vector and the
/// two centroids; `None` exactly when the range holds a single id.
fn pseudo_kmeans_w_vec_from_points<S: EmbeddingStore>(
    ids: &Vec<(NodeID, bool)>,
    lo: usize,
    hi: usize,
    es: &S,
    iterations: usize,
    rng: &mut XorShiftRng,
) -> (r: Option<(Vec<u32>, Vec<u32>, Vec<u32>)>)
    requires
        lo < hi <= ids@.len(),
        iterations < usize::MAX - 1,
    ensures
        r is None ==> all_ids_equal(ids@, lo as int, hi as int),
        all_ids_equal(ids@, lo as int, hi as int) ==> r is None,
        r matches Some(p) ==> p.0@.len() == if p.1@.len() <= p.2@.len() {
            p.1@.len()
        } else {
            p.2@.len()
        },
{
    let seeds = choose_two_distinct(ids, lo, hi, rng);
    match seeds {
        None => None,
        Some((id1, id2)) => {
            let mut pa: Vec<u32> = es.get_embedding(id1);
            let mut pb: Vec<u32> = es.get_embedding(id2);
            let mut ac: usize = 1;
            let mut bc: usize = 1;
            let mut it: usize = 0;
            let ghost la = pa@.len();
            let ghost lb = pb@.len();
            while it < iterations
                invariant
                    lo < hi <= ids@.len(),
                    iterations < usize::MAX - 1,
                    it <= iterations,
                    1 <= ac,
                    1 <= bc,
                    ac + bc == 2 + it,
                    pa@.len() == la,
                    pb@.len() == lb,
                decreases iterations - it,
            {
                let idx: NodeID = choose_id(ids, lo, hi, rng);
                let emb: Vec<u32> = es.get_embedding(idx);
                let da: u32 = es.scalar_mul(es.scalar_of_usize(ac), es.distance(&pa, &emb));
                let db: u32 = es.scalar_mul(es.scalar_of_usize(bc), es.distance(&pb, &emb));
                if gt_bits(da, db) {
                    bc = bc + 1;
                    update_point(es, &mut pb, &emb, bc);
                } else {
                    ac = ac + 1;
                    update_point(es, &mut pa, &emb, ac);
                }
                it = it + 1;
            }
            let delta: Vec<u32> = vec_sub(es, &pa, &pb);
            Some((delta, pa, pb))
        },
    }
}

/// The point-difference direction: the elementwise difference of the
/// embeddings of two distinct ids of the range; `None` exactly when the
/// range holds a single id.
fn compute_w_vec_from_points<S: EmbeddingStore>(
    ids: &Vec<(NodeID, bool)>,
    lo: usize,
    hi: usize,
    es: &S,
    rng: &mut XorShiftRng,
) -> (r: Option<Vec<u32>>)
    requires
        lo < hi <= ids@.len(),
    ensures
        r is None ==> all_ids_equal(ids@, lo as int, hi as int),
        all_ids_equal(ids@, lo as int, hi as int) ==> r is None,
{
    match choose_two_distinct(ids, lo, hi, rng) {
        None => None,
        Some((id1, id2)) => {
            let pa: Vec<u32> = es.get_embedding(id1);
            let pb: Vec<u32> = es.get_embedding(id2);
            Some(vec_sub(es, &pa, &pb))
        },
    }
}

/// Ascending by the total-order key of the patterns.
pub open spec fn sorted_keys(s: Seq<u32>) -> bool {
    forall|i: int, j: int| 0 <= i < j < s.len() ==> total_key(#[trigger] s[i]) <= total_key(
        #[trigger] s[j],
    )
}

/// The values of `src`, reordered ascending by total-order key.
fn sorted_by_key(src: Vec<u32>) -> (r: Vec<u32>)
    ensures
        r@.len() == src@.len(),
        r@.to_multiset() == src@.to_multiset(),
        sorted_keys(r@),
{
    broadcast use group_to_multiset_ensures;

    let ghost orig = src@;
    let mut src = src;
    let mut out: Vec<u32> = Vec::new();
    while src.len() > 0
        invariant
            out@.to_multiset().add(src@.to_multiset()) == orig.to_multiset(),
            out@.len() + src@.len() == orig.len(),
            sorted_keys(out@),
            forall|a: int, b: int|
                0 <= a < out@.len() && 0 <= b < src@.len() ==> total_key(#[trigger] out@[a])
                    <= total_key(#[trigger] src@[b]),
        decreases src@.len(),
    {
        let mut m: usize = 0;
        let mut i: usize = 1;
        while i < src.len()
            invariant
                src@.len() > 0,
                m < i,
                i <= src@.len(),
                forall|j: int| 0 <= j < i ==> total_key(src@[m as int]) <= total_key(
                    #[trigger] src@[j],
                ),
            decreases src@.len() - i,
        {
            if key_of(src[i]) < key_of(src[m]) {
                m = i;
            }
            i = i + 1;
        }
        let ghost pre_out = out@;
        let ghost pre_src = src@;
        let x: u32 = src.remove(m);
        out.push(x);
        proof {
            broadcast use group_to_multiset_ensures;

            assert(pre_src.contains(x));
            assert(out@.to_multiset() =~= pre_out.to_multiset().insert(x));
            assert(src@.to_multiset() =~= pre_src.to_multiset().remove(x));
            assert(out@.to_multiset().add(src@.to_multiset()) =~= orig.to_multiset());
            assert forall|a: int, b: int|
                0 <= a < out@.len() && 0 <= b < src@.len() implies total_key(#[trigger] out@[a])
                <= total_key(#[trigger] src@[b]) by {
                if b < m {
                    assert(src@[b] == pre_src[b]);
                } else {
                    assert(src@[b] == pre_src[b + 1]);
                }
                if a < pre_out.len() {
                    assert(out@[a] == pre_out[a]);
                } else {
                    assert(out@[a] == x);
                }
            }
        }
    }
    out
}

/// The middle pattern of an ascending run: the exact middle of an odd run,
/// the store's mean of the two middle patterns of an even one.
fn median<S: EmbeddingStore>(es: &S, sorted: &Vec<u32>) -> (r: u32)
    requires
        sorted@.len() >= 1,
    ensures
        sorted@.len() % 2 == 1 ==> r == sorted@[sorted@.len() as int / 2],
{
    let half: usize = sorted.len() / 2;
    if sorted.len() % 2 == 1 {
        sorted[half]
    } else {
        es.scalar_div(es.scalar_add(sorted[half - 1], sorted[half]), es.scalar_of_usize(2))
    }
}

/// Median-threshold random-projection split: a point-difference direction,
/// a sample of projections onto it, and the negated median of the sorted
/// sample as bias.  `None` exactly when the range holds a single id.
fn compute_normal_rp<S: EmbeddingStore>(
    ids: &Vec<(NodeID, bool)>,
    lo: usize,
    hi: usize,
    es: &S,
    num_sampled_nodes_split_test: usize,
    rng: &mut XorShiftRng,
) -> (r: Option<Hyperplane>)
    requires
        lo < hi <= ids@.len(),
        num_sampled_nodes_split_test >= 1,
    ensures
        r is None ==> all_ids_equal(ids@, lo as int, hi as int),
        all_ids_equal(ids@, lo as int, hi as int) ==> r is None,
{
    let random_vec: Vec<u32> = match compute_w_vec_from_points(ids, lo, hi, es, rng) {
        None => {
            return None;
        },
        Some(v) => v,
    };
    let n: usize = if num_sampled_nodes_split_test <= hi - lo {
        num_sampled_nodes_split_test
    } else {
        hi - lo
    };
    let mut rps: Vec<u32> = Vec::new();
    let mut c: usize = 0;
    while c < n
        invariant
            lo < hi <= ids@.len(),
            rps@.len() == c,
            c <= n,
        decreases n - c,
    {
        let idx: NodeID = choose_id(ids, lo, hi, rng);
        let emb: Vec<u32> = es.get_embedding(idx);
        rps.push(dot(es, &emb, &random_vec));
        c = c + 1;
    }
    let rps = sorted_by_key(rps);
    let bias: u32 = neg_bits(median(es, &rps));
    Some(Hyperplane::new(random_vec, bias))
}

/// Best-of-N pseudo-k-means split: builds `test_hp_per_split` candidate
/// planes through refined centroid pairs and keeps the one whose sampled
/// sides are most balanced, earlier candidates winning ties.  `None`
/// exactly when the range holds a single id.
fn compute_simple_splits<S: EmbeddingStore>(
    ids: &Vec<(NodeID, bool)>,
    lo: usize,
    hi: usize,
    es: &S,
    test_hp_per_split: usize,
    num_sampled_nodes_split_test: usize,
    rng: &mut XorShiftRng,
) -> (r: Option<Hyperplane>)
    requires
        lo < hi <= ids@.len(),
        test_hp_per_split >= 1,
        num_sampled_nodes_split_test < usize::MAX - 1,
    ensures
        r is None ==> all_ids_equal(ids@, lo as int, hi as int),
        all_ids_equal(ids@, lo as int, hi as int) ==> r is None,
{
    let n: usize = if num_sampled_nodes_split_test <= hi - lo {
        num_sampled_nodes_split_test
    } else {
        hi - lo
    };
    let mut best_score: usize = 0;
    let mut best: Option<Hyperplane> = None;
    let mut t: usize = 0;
    while t < test_hp_per_split
        invariant
            lo < hi <= ids@.len(),
            num_sampled_nodes_split_test < usize::MAX - 1,
            n <= hi - lo,
            t >= 1 ==> best is Some,
            best is Some ==> !all_ids_equal(ids@, lo as int, hi as int),
            t <= test_hp_per_split,
        decreases test_hp_per_split - t,
    {
        let km = pseudo_kmeans_w_vec_from_points(ids, lo, hi, es, num_sampled_nodes_split_test, rng);
        match km {
            None => {
                return None;
            },
            Some((diff, pa, pb)) => {
                let bias: u32 = plane_bias(es, &diff, &pa, &pb);
                let hp = Hyperplane::new(diff, bias);
                let mut s: usize = 0;
                let mut c: usize = 0;
                while c < n
                    invariant
                        lo < hi <= ids@.len(),
                        s <= c <= n,
                    decreases n - c,
                {
                    let idx: NodeID = choose_id(ids, lo, hi, rng);
                    let emb: Vec<u32> = es.get_embedding(idx);
                    if hp.point_is_above(es, &emb) {
                        s = s + 1;
                    }
                    c = c + 1;
                }
                let d: usize = n - s;
                let score: usize = if s >= d {
                    s - d
                } else {
                    d - s
                };
                if best.is_none() || score < best_score {
                    best_score = score;
                    best = Some(hp);
                }
            },
        }
        t = t + 1;
    }
    best
}

/// Swapping two positions keeps the sequence's multiset.
proof fn lemma_swap_multiset<T>(s: Seq<T>, i: int, j: int)
    requires
        0 <= i < j < s.len(),
    ensures
        s.update(i, s[j]).update(j, s[i]).to_multiset() == s.to_multiset(),
{
    broadcast use group_to_multiset_ensures;

    let s2 = s.update(i, s[j]).update(j, s[i]);
    let t = s.remove(j).remove(i);
    assert(s.remove(j)[i] == s[i]);
    assert(s2.remove(j)[i] == s[j]);
    assert(s2.remove(j).remove(i) =~= t);
    assert(s.contains(s[j]));
    assert(s.remove(j).contains(s[i])) by {
        assert(s.remove(j)[i] == s[i]);
    }
    assert(s2.contains(s2[j]));
    assert(s2.remove(j).contains(s2[i])) by {
        assert(s2.remove(j)[i] == s2[i]);
    }
    assert(s.remove(j).to_multiset() == s.to_multiset().remove(s[j]));
    assert(t.to_multiset() == s.to_multiset().remove(s[j]).remove(s[i]));
    assert(s2.remove(j).to_multiset() == s2.to_multiset().remove(s[i]));
    assert(t.to_multiset() == s2.to_multiset().remove(s[i]).remove(s[j]));
    assert(s.to_multiset().count(s[j]) >= 1);
    assert(s.to_multiset().remove(s[j]).count(s[i]) >= 1) by {
        assert(s.remove(j).to_multiset().count(s[i]) >= 1);
    }
    assert(s2.to_multiset().count(s[i]) >= 1);
    assert(s2.to_multiset().remove(s[i]).count(s[j]) >= 1) by {
        assert(s2.remove(j).to_multiset().count(s[j]) >= 1);
    }
    assert(s2.to_multiset() =~= s.to_multiset());
}

/// The pairs flagged below (false), in their order of appearance.
pub open spec fn false_block(s: Seq<(NodeID, bool)>) -> Seq<(NodeID, bool)>
    decreases s.len(),
{
    if s.len() == 0 {
        Seq::empty()
    } else if !s[0].1 {
        seq![s[0]] + false_block(s.drop_first())
    } else {
        false_block(s.drop_first())
    }
}

proof fn lemma_false_block_snoc(s: Seq<(NodeID, bool)>, x: (NodeID, bool))
    ensures
        false_block(s.push(x)) == if !x.1 {
            false_block(s).push(x)
        } else {
            false_block(s)
        },
    decreases s.len(),
{
    if s.len() == 0 {
        assert(s.push(x)[0] == x);
        assert(s.push(x).drop_first() =~= Seq::<(NodeID, bool)>::empty());
        assert(false_block(s.push(x).drop_first()) =~= Seq::<(NodeID, bool)>::empty());
        assert(false_block(s) =~= Seq::<(NodeID, bool)>::empty());
        if !x.1 {
            assert(false_block(s.push(x)) =~= seq![x] + Seq::<(NodeID, bool)>::empty());
            assert(seq![x] + Seq::<(NodeID, bool)>::empty() =~= false_block(s).push(x));
        }
    } else {
        assert(s.push(x)[0] == s[0]);
        assert(s.push(x).drop_first() =~= s.drop_first().push(x));
        lemma_false_block_snoc(s.drop_first(), x);
        if !s[0].1 {
            if !x.1 {
                assert(false_block(s.push(x)) =~= (seq![s[0]] + false_block(s.drop_first())).push(
                    x,
                ));
            }
        } else {
            if !x.1 {
                assert(false_block(s.push(x)) =~= false_block(s).push(x));
            }
        }
    }
}

/// Moves the pairs flagged below (false) to the front of the range and the
/// ones flagged above (true) behind them, swapping in place; returns how
/// many lie below.  The range keeps its pairs as a multiset, the below
/// block is exactly the range's below pairs in their old order, and
/// everything outside the range stays put.
pub(crate) fn partition_sides(ids: &mut Vec<(NodeID, bool)>, lo: usize, hi: usize) -> (nb: usize)
    requires
        lo <= hi <= old(ids)@.len(),
    ensures
        final(ids)@.len() == old(ids)@.len(),
        forall|j: int| 0 <= j < lo ==> final(ids)@[j] == old(ids)@[j],
        forall|j: int| hi <= j < old(ids)@.len() ==> final(ids)@[j] == old(ids)@[j],
        final(ids)@.subrange(lo as int, hi as int).to_multiset() == old(ids)@.subrange(
            lo as int,
            hi as int,
        ).to_multiset(),
        ids_of(final(ids)@.subrange(lo as int, hi as int)).to_multiset() == ids_of(
            old(ids)@.subrange(lo as int, hi as int),
        ).to_multiset(),
        lo + nb <= hi,
        forall|j: int| lo <= j < lo + nb ==> !final(ids)@[j].1,
        forall|j: int| lo + nb <= j < hi ==> final(ids)@[j].1,
        final(ids)@.subrange(lo as int, lo as int + nb) == false_block(
            old(ids)@.subrange(lo as int, hi as int),
        ),
{
    let ghost orig = ids@;
    let mut low: usize = lo;
    let mut cur: usize = lo;
    while cur < hi
        invariant
            lo <= low <= cur <= hi <= ids@.len(),
            ids@.len() == orig.len(),
            forall|j: int| 0 <= j < lo ==> ids@[j] == orig[j],
            forall|j: int| hi <= j < orig.len() ==> ids@[j] == orig[j],
            ids@.subrange(lo as int, hi as int).to_multiset() == orig.subrange(
                lo as int,
                hi as int,
            ).to_multiset(),
            ids_of(ids@.subrange(lo as int, hi as int)).to_multiset() == ids_of(
                orig.subrange(lo as int, hi as int),
            ).to_multiset(),
            forall|j: int| lo <= j < low ==> !ids@[j].1,
            forall|j: int| low <= j < cur ==> ids@[j].1,
            forall|j: int| cur <= j < hi ==> ids@[j] == orig[j],
            ids@.subrange(lo as int, low as int) == false_block(
                orig.subrange(lo as int, cur as int),
            ),
        decreases hi - cur,
    {
        proof {
            assert(orig.subrange(lo as int, cur as int + 1) =~= orig.subrange(
                lo as int,
                cur as int,
            ).push(orig[cur as int]));
            lemma_false_block_snoc(orig.subrange(lo as int, cur as int), orig[cur as int]);
        }
        if !ids[cur].1 {
            let a: (NodeID, bool) = ids[cur];
            let b: (NodeID, bool) = ids[low];
            let ghost pre = ids@;
            ids.set(cur, b);
            ids.set(low, a);
            proof {
                if low < cur {
                    let sub = pre.subrange(lo as int, hi as int);
                    let li = low as int - lo as int;
                    let ci = cur as int - lo as int;
                    assert(ids@.subrange(lo as int, hi as int) =~= sub.update(li, sub[ci]).update(
                        ci,
                        sub[li],
                    ));
                    lemma_swap_multiset(sub, li, ci);
                    assert(ids_of(ids@.subrange(lo as int, hi as int)) =~= ids_of(sub).update(
                        li,
                        ids_of(sub)[ci],
                    ).update(ci, ids_of(sub)[li]));
                    lemma_swap_multiset(ids_of(sub), li, ci);
                } else {
                    assert(ids@ =~= pre);
                }
                // the below block grows by the pair the cursor found
                assert(ids@[low as int] == orig[cur as int]);
                assert(ids@.subrange(lo as int, low as int + 1) =~= pre.subrange(
                    lo as int,
                    low as int,
                ).push(orig[cur as int]));
            }
            low = low + 1;
        }
        cur = cur + 1;
    }
    proof {
        assert(ids@.subrange(lo as int, low as int) == false_block(
            orig.subrange(lo as int, hi as int),
        ));
    }
    low - lo
}

/// Sets each pair's side flag to whether its embedding lies at or above the
/// plane, leaving every id in place.
fn label_sides<S: EmbeddingStore>(
    ids: &mut Vec<(NodeID, bool)>,
    lo: usize,
    hi: usize,
    es: &S,
    hp: &Hyperplane,
)
    requires
        lo <= hi <= old(ids)@.len(),
    ensures
        final(ids)@.len() == old(ids)@.len(),
        forall|j: int| 0 <= j < lo ==> final(ids)@[j] == old(ids)@[j],
        forall|j: int| hi <= j < old(ids)@.len() ==> final(ids)@[j] == old(ids)@[j],
        forall|j: int| lo <= j < hi ==> final(ids)@[j].0 == old(ids)@[j].0,
{
    let ghost orig = ids@;
    let mut j: usize = lo;
    while j < hi
        invariant
            lo <= j <= hi <= ids@.len(),
            ids@.len() == orig.len(),
            forall|m: int| 0 <= m < lo ==> ids@[m] == orig[m],
            forall|m: int| hi <= m < orig.len() ==> ids@[m] == orig[m],
            forall|m: int| j <= m < hi ==> ids@[m] == orig[m],
            forall|m: int| lo <= m < j ==> ids@[m].0 == orig[m].0,
        decreases hi - j,
    {
        let id: NodeID = ids[j].0;
        let emb: Vec<u32> = es.get_embedding(id);
        let above: bool = hp.point_is_above(es, &emb);
        ids.set(j, (id, above));
        j = j + 1;
    }
}

/// Appends one leaf holding the range's ids in their current order.
fn push_leaf(table: &mut Vec<Tree>, ids: &Vec<(NodeID, bool)>, lo: usize, hi: usize) -> (root:
    usize)
    requires
        lo <= hi <= ids@.len(),
        wf_arena(old(table)@),
    ensures
        final(table)@.len() == old(table)@.len() + 1,
        root == old(table)@.len(),
        final(table)@.subrange(0, old(table)@.len() as int) == old(table)@,
        wf_arena(final(table)@),
        final(table)@[root as int] is Leaf,
        node_id_seq(final(table)@[root as int]) == ids_of(ids@.subrange(lo as int, hi as int)),
        ids_between(final(table)@, root as int, root as int + 1) == ids_of(
            ids@.subrange(lo as int, hi as int),
        ).to_multiset(),
        subtree_ids(final(table)@, root as int) == ids_of(
            ids@.subrange(lo as int, hi as int),
        ).to_multiset(),
{
    let mut indices: Vec<NodeID> = Vec::new();
    let mut j: usize = lo;
    while j < hi
        invariant
            lo <= j <= hi <= ids@.len(),
            indices@ == ids_of(ids@.subrange(lo as int, j as int)),
        decreases hi - j,
    {
        indices.push(ids[j].0);
        proof {
            assert(ids@.subrange(lo as int, j as int + 1) =~= ids@.subrange(
                lo as int,
                j as int,
            ).push(ids@[j as int]));
            assert(indices@ =~= ids_of(ids@.subrange(lo as int, j as int + 1)));
        }
        j = j + 1;
    }
    let ghost pre = table@;
    let ghost leaf_contents = indices@;
    table.push(Tree::Leaf { indices });
    let root: usize = table.len() - 1;
    proof {
        assert(table@.subrange(0, pre.len() as int) =~= pre);
        assert forall|i: int| 0 <= i < table@.len() implies #[trigger] wf_node(table@, i) by {
            if i < pre.len() {
                assert(wf_node(pre, i));
                assert(table@[i] == pre[i]);
            }
        }
        lemma_ids_between_single(table@, root as int);
        assert(node_ids(table@[root as int]) == leaf_contents.to_multiset());
    }
    root
}

/// Builds the subtree for the working range `[lo, hi)` into the arena and
/// returns its root's index, which is the arena's new last position.
///
/// The nodes it appends hold, across their leaves, exactly the range's ids:
/// a run shorter than the leaf cutoff becomes a leaf at once; otherwise a
/// plane from the configured heuristic splits the range in place, the above
/// side is built first, the below side next, and a split node joins them.
/// A range a plane cannot separate — a single id, or every sample on one
/// side — becomes a leaf whatever its size, which bounds the recursion.
pub(crate) fn fit_group<S: EmbeddingStore>(
    config: &AnnBuildConfig,
    table: &mut Vec<Tree>,
    es: &S,
    ids: &mut Vec<(NodeID, bool)>,
    lo: usize,
    hi: usize,
    rng: &mut XorShiftRng,
) -> (root: usize)
    requires
        lo < hi <= old(ids)@.len(),
        wf_arena(old(table)@),
        1 <= config.num_sampled_nodes_split_test < usize::MAX - 1,
    ensures
        wf_arena(final(table)@),
        final(table)@.len() > old(table)@.len(),
        root as int == final(table)@.len() - 1,
        final(table)@.subrange(0, old(table)@.len() as int) == old(table)@,
        final(ids)@.len() == old(ids)@.len(),
        forall|j: int| 0 <= j < lo ==> final(ids)@[j] == old(ids)@[j],
        forall|j: int| hi <= j < old(ids)@.len() ==> final(ids)@[j] == old(ids)@[j],
        ids_between(final(table)@, old(table)@.len() as int, final(table)@.len() as int) == ids_of(
            old(ids)@.subrange(lo as int, hi as int),
        ).to_multiset(),
        subtree_ids(final(table)@, root as int) == ids_of(
            old(ids)@.subrange(lo as int, hi as int),
        ).to_multiset(),
        forall|i: int|
            old(table)@.len() <= i < final(table)@.len() ==> #[trigger] children_at_least(
                final(table)@,
                i,
                old(table)@.len() as int,
            ),
        hi - lo < config.max_nodes_per_leaf ==> final(table)@.len() == old(table)@.len() + 1 && (
        final(table)@[root as int] is Leaf) && node_id_seq(final(table)@[root as int]) == ids_of(
            old(ids)@.subrange(lo as int, hi as int),
        ) && final(ids)@ == old(ids)@,
    decreases hi - lo,
{
    let ghost table0 = table@;
    let ghost ids0 = ids@;
    if hi - lo < config.max_nodes_per_leaf {
        let root = push_leaf(table, ids, lo, hi);
        proof {
            assert(children_at_least(table@, root as int, table0.len() as int));
        }
        return root;
    }
    let hp_opt: Option<Hyperplane> = if config.test_hp_per_split > 0 {
        compute_simple_splits(
            ids,
            lo,
            hi,
            es,
            config.test_hp_per_split,
            config.num_sampled_nodes_split_test,
            rng,
        )
    } else {
        compute_normal_rp(ids, lo, hi, es, config.num_sampled_nodes_split_test, rng)
    };
    let hp: Hyperplane = match hp_opt {
        None => {
            // a single id fills the range: no plane separates it
            let root = push_leaf(table, ids, lo, hi);
            proof {
                assert(children_at_least(table@, root as int, table0.len() as int));
            }
            return root;
        },
        Some(hp) => hp,
    };
    label_sides(ids, lo, hi, es, &hp);
    proof {
        assert(ids_of(ids@.subrange(lo as int, hi as int)) =~= ids_of(
            ids0.subrange(lo as int, hi as int),
        ));
    }
    let nb: usize = partition_sides(ids, lo, hi);
    let mid: usize = lo + nb;
    proof {
        assert(ids_of(ids@.subrange(lo as int, hi as int)).to_multiset() == ids_of(
            ids0.subrange(lo as int, hi as int),
        ).to_multiset());
    }
    if nb == 0 || mid == hi {
        // every pair fell on one side: close the range off as a leaf
        let root = push_leaf(table, ids, lo, hi);
        proof {
            assert(children_at_least(table@, root as int, table0.len() as int));
        }
        return root;
    }
    let ghost ids1 = ids@;
    let above_idx: usize = fit_group(config, table, es, ids, mid, hi, rng);
    let ghost table_a = table@;
    let ghost ids2 = ids@;
    let below_idx: usize = fit_group(config, table, es, ids, lo, mid, rng);
    let ghost table_b = table@;
    table.push(Tree::Split { hp, above: above_idx, below: below_idx });
    let root: usize = table.len() - 1;
    proof {
        // the arena grew by a prefix-preserving chain, so earlier nodes keep
        // their shape and the new split's children stand before it
        assert(table_b.subrange(0, table_a.len() as int) == table_a);
        assert(table@.subrange(0, table_b.len() as int) =~= table_b);
        assert(table@.subrange(0, table0.len() as int) =~= table0);
        assert forall|i: int| 0 <= i < table@.len() implies #[trigger] wf_node(table@, i) by {
            if i < table_b.len() {
                assert(wf_node(table_b, i));
                assert(table@[i] == table_b[i]);
            } else {
                assert(i == root as int);
                assert(above_idx as int == table_a.len() - 1);
                assert(below_idx as int == table_b.len() - 1);
            }
        }
        // the new nodes' leaves hold the two half-ranges' ids together
        let n0 = table0.len() as int;
        let na = table_a.len() as int;
        let nb_ = table_b.len() as int;
        assert(ids_between(table@, n0, root as int) == ids_between(table_b, n0, nb_)) by {
            lemma_ids_between_frame(table@, table_b, n0, nb_);
        }
        assert(ids_between(table_b, n0, na) == ids_between(table_a, n0, na)) by {
            lemma_ids_between_frame(table_b, table_a, n0, na);
        }
        lemma_ids_between_concat(table_b, n0, na, nb_);
        lemma_ids_between_concat(table@, n0, root as int, root as int + 1);
        lemma_ids_between_single(table@, root as int);
        assert(node_ids(table@[root as int]) =~= Multiset::<NodeID>::empty());
        assert(ids_between(table@, n0, root as int + 1) =~= ids_between(table_b, n0, na).add(
            ids_between(table_b, na, nb_),
        ));
        // the two halves' ids rebuild the whole range's ids
        assert(ids1.subrange(lo as int, mid as int) =~= ids2.subrange(lo as int, mid as int));
        assert(ids_of(ids1.subrange(lo as int, hi as int)) =~= ids_of(
            ids1.subrange(lo as int, mid as int),
        ) + ids_of(ids1.subrange(mid as int, hi as int)));
        lemma_multiset_commutative(
            ids_of(ids1.subrange(lo as int, mid as int)),
            ids_of(ids1.subrange(mid as int, hi as int)),
        );
        assert(ids_between(table@, n0, root as int + 1) =~= ids_of(
            ids0.subrange(lo as int, hi as int),
        ).to_multiset());
        // every appended node keeps its children within this call's range
        assert forall|j: int| 0 <= j < nb_ implies table@[j] == table_b[j] by {
            assert(table@.subrange(0, nb_)[j] == table@[j]);
        }
        assert forall|j: int| 0 <= j < na implies table_b[j] == table_a[j] by {
            assert(table_b.subrange(0, na)[j] == table_b[j]);
        }
        assert forall|i: int| n0 <= i < table@.len() implies #[trigger] children_at_least(
            table@,
            i,
            n0,
        ) by {
            if i < na {
                assert(children_at_least(table_a, i, n0));
                assert(table@[i] == table_a[i]);
            } else if i < nb_ {
                assert(children_at_least(table_b, i, na));
                assert(table@[i] == table_b[i]);
            } else {
                assert(above_idx as int == na - 1 && below_idx as int == nb_ - 1);
            }
        }
        // the new root reaches exactly the range's ids
        lemma_subtree_frame(table@, table_a, above_idx as int);
        lemma_subtree_frame(table@, table_b, below_idx as int);
        assert(subtree_ids(table@, root as int) == subtree_ids(table@, above_idx as int).add(
            subtree_ids(table@, below_idx as int),
        ));
        assert(subtree_ids(table@, root as int) =~= ids_of(
            ids0.subrange(lo as int, hi as int),
        ).to_multiset());
    }
    root
}

} // verus!
