use vstd::prelude::*;
use vstd::seq_lib::*;
use vstd::multiset::Multiset;
use rand_xorshift::XorShiftRng;
use crate::NodeID;
use crate::bits::{total_key, key_of, pair_lt, pair_le, pair_lt_exec, abs_bits, ge_zero};
use crate::rng::rng_from_seed;
use crate::store::EmbeddingStore;
use crate::topk::{
    TopK, NodeDistance, DistanceFromEntity, nd_pair, sorted_nds, push_fold, lemma_push_fold_snoc,
    lemma_push_fold_contains,
};
use crate::tree::{Tree, wf_node, wf_arena, node_ids, node_id_seq, arena_ids, depth_of, descends_to_leaf};
use crate::tree::{subtree_ids, root_reaches};
use crate::tree::{tree_depth, tree_leaf_index, tree_leaf_path, lemma_node_ids_in_arena};
use crate::builder::{AnnBuildConfig, fit_group, ids_of};

verus! {

// --- Traversal bookkeeping ----------------------------------------------
//
// The frontier of a search is a bag of (penalty pattern, arena index)
// entries.  Every split pushes its two children, whose indices are strictly
// smaller, so the sum of 3^index over the frontier shrinks with every step
// and bounds the search.

pub open spec fn pow3(n: nat) -> nat
    decreases n,
{
    if n == 0 {
        1
    } else {
        3 * pow3((n - 1) as nat)
    }
}

pub open spec fn frontier_measure(s: Seq<(u32, usize)>) -> nat
    decreases s.len(),
{
    if s.len() == 0 {
        0
    } else {
        pow3(s[0].1 as nat) + frontier_measure(s.drop_first())
    }
}

proof fn lemma_pow3_pos(n: nat)
    ensures
        pow3(n) >= 1,
    decreases n,
{
    if n > 0 {
        lemma_pow3_pos((n - 1) as nat);
    }
}

proof fn lemma_pow3_mono(a: nat, b: nat)
    requires
        a <= b,
    ensures
        pow3(a) <= pow3(b),
    decreases b,
{
    if a < b {
        lemma_pow3_mono(a, (b - 1) as nat);
        lemma_pow3_pos((b - 1) as nat);
    }
}

proof fn lemma_frontier_push(s: Seq<(u32, usize)>, e: (u32, usize))
    ensures
        frontier_measure(s.push(e)) == frontier_measure(s) + pow3(e.1 as nat),
    decreases s.len(),
{
    if s.len() == 0 {
        assert(s.push(e)[0] == e);
        assert(s.push(e).drop_first() =~= Seq::<(u32, usize)>::empty());
        assert(frontier_measure(s.push(e).drop_first()) == 0);
        assert(frontier_measure(s) == 0);
    } else {
        assert(s.push(e)[0] == s[0]);
        assert(s.push(e).drop_first() =~= s.drop_first().push(e));
        lemma_frontier_push(s.drop_first(), e);
    }
}

proof fn lemma_frontier_remove(s: Seq<(u32, usize)>, i: int)
    requires
        0 <= i < s.len(),
    ensures
        frontier_measure(s.remove(i)) + pow3(s[i].1 as nat) == frontier_measure(s),
    decreases s.len(),
{
    if i == 0 {
        assert(s.remove(0) =~= s.drop_first());
    } else {
        assert(s.remove(i).drop_first() =~= s.drop_first().remove(i - 1));
        lemma_frontier_remove(s.drop_first(), i - 1);
    }
}

/// The ids reachable from the frontier's entries, counted with repetition.
pub open spec fn frontier_ids_count(s: Seq<(u32, usize)>, table: Seq<Tree>) -> nat
    decreases s.len(),
{
    if s.len() == 0 {
        0
    } else {
        subtree_ids(table, s[0].1 as int).len() + frontier_ids_count(s.drop_first(), table)
    }
}

proof fn lemma_frontier_ids_push(s: Seq<(u32, usize)>, table: Seq<Tree>, e: (u32, usize))
    ensures
        frontier_ids_count(s.push(e), table) == frontier_ids_count(s, table) + subtree_ids(
            table,
            e.1 as int,
        ).len(),
    decreases s.len(),
{
    if s.len() == 0 {
        assert(s.push(e)[0] == e);
        assert(s.push(e).drop_first() =~= Seq::<(u32, usize)>::empty());
        assert(frontier_ids_count(s.push(e).drop_first(), table) == 0);
        assert(frontier_ids_count(s, table) == 0);
    } else {
        assert(s.push(e)[0] == s[0]);
        assert(s.push(e).drop_first() =~= s.drop_first().push(e));
        lemma_frontier_ids_push(s.drop_first(), table, e);
    }
}

proof fn lemma_frontier_ids_remove(s: Seq<(u32, usize)>, table: Seq<Tree>, i: int)
    requires
        0 <= i < s.len(),
    ensures
        frontier_ids_count(s.remove(i), table) + subtree_ids(table, s[i].1 as int).len()
            == frontier_ids_count(s, table),
    decreases s.len(),
{
    if i == 0 {
        assert(s.remove(0) =~= s.drop_first());
    } else {
        assert(s.remove(i).drop_first() =~= s.drop_first().remove(i - 1));
        lemma_frontier_ids_remove(s.drop_first(), table, i - 1);
    }
}

/// Entry `a` is searched no later than `b`: its penalty pattern ranks lower,
/// or ranks equal with `a` the deeper (larger) arena index.
pub open spec fn prio_best(a: (u32, usize), b: (u32, usize)) -> bool {
    total_key(a.0) < total_key(b.0) || (total_key(a.0) == total_key(b.0) && a.1 >= b.1)
}

/// Removes and returns the frontier entry to search next: lowest penalty
/// rank, ties to the largest arena index.
fn pop_best(heap: &mut Vec<(u32, usize)>) -> (r: (u32, usize))
    requires
        old(heap)@.len() > 0,
    ensures
        exists|i: int|
            0 <= i < old(heap)@.len() && old(heap)@[i] == r && final(heap)@ == old(heap)@.remove(i),
        forall|j: int| 0 <= j < old(heap)@.len() ==> prio_best(r, #[trigger] old(heap)@[j]),
{
    let mut m: usize = 0;
    let mut i: usize = 1;
    while i < heap.len()
        invariant
            heap@.len() > 0,
            m < i,
            i <= heap@.len(),
            forall|j: int| 0 <= j < i ==> prio_best(heap@[m as int], #[trigger] heap@[j]),
        decreases heap@.len() - i,
    {
        let better: bool = {
            let ki: u32 = key_of(heap[i].0);
            let km: u32 = key_of(heap[m].0);
            ki < km || (ki == km && heap[i].1 > heap[m].1)
        };
        if better {
            m = i;
        }
        i = i + 1;
    }
    let r: (u32, usize) = heap[m];
    let ghost pre = heap@;
    let ghost mi = m as int;
    heap.remove(m);
    proof {
        assert(pre[mi] == r && heap@ == pre.remove(mi));
    }
    r
}

/// The entries a leaf contributes: its ids, each with the distance computed
/// for it, in leaf order.
pub open spec fn zip_nds(ids: Seq<NodeID>, ds: Seq<u32>) -> Seq<NodeDistance> {
    Seq::new(ids.len(), |i: int| DistanceFromEntity(ds[i], ids[i]))
}

/// Pushes a scored leaf into the collector: the leaf's ids enter in leaf
/// order, each paired with the distance computed at its position.
pub fn score_leaf(return_set: &mut TopK, indices: &Vec<NodeID>, dists: &Vec<u32>)
    requires
        old(return_set).inv(),
        indices@.len() == dists@.len(),
    ensures
        final(return_set).inv(),
        final(return_set).cap() == old(return_set).cap(),
        final(return_set).contents() == push_fold(
            old(return_set).contents(),
            old(return_set).cap(),
            zip_nds(indices@, dists@),
        ),
{
    let ghost s0 = return_set.contents();
    let ghost k0 = return_set.cap();
    let ghost adds = zip_nds(indices@, dists@);
    let mut j: usize = 0;
    while j < indices.len()
        invariant
            indices@.len() == dists@.len(),
            j <= indices@.len(),
            adds == zip_nds(indices@, dists@),
            return_set.inv(),
            return_set.cap() == k0,
            return_set.contents() == push_fold(s0, k0, adds.take(j as int)),
        decreases indices@.len() - j,
    {
        proof {
            assert(adds.take(j as int).push(adds[j as int]) =~= adds.take(j as int + 1));
            lemma_push_fold_snoc(s0, k0, adds.take(j as int), adds[j as int]);
        }
        return_set.push(indices[j], dists[j]);
        j = j + 1;
    }
    proof {
        assert(adds.take(adds.len() as int) =~= adds);
    }
}

/// Best-first search of one arena.  The frontier starts at the root with no
/// penalty; popping a split pushes the query's side of the plane with no
/// penalty and the far side with the plane distance's magnitude as penalty;
/// popping a leaf scores all its ids against the query.  The search stops
/// when the frontier empties or at least `max(min_search_nodes, k)` ids
/// have been scored.  Returns at most `k` pairs, ascending by
/// (distance pattern, id), every id taken from the arena's leaves.
pub(crate) fn tree_predict<S: EmbeddingStore>(
    table: &Vec<Tree>,
    es: &S,
    emb: &Vec<u32>,
    k: usize,
    min_search_nodes: usize,
) -> (r: Vec<(NodeID, u32)>)
    requires
        wf_arena(table@),
        table@.len() >= 1,
    ensures
        r@.len() <= k,
        forall|i: int, j: int|
            0 <= i < j < r@.len() ==> pair_le(
                (#[trigger] r@[i].1, r@[i].0),
                (#[trigger] r@[j].1, r@[j].0),
            ),
        forall|i: int| 0 <= i < r@.len() ==> arena_ids(table@).contains(#[trigger] r@[i].0),
        r@.len() >= if k as nat <= subtree_ids(table@, table@.len() - 1).len() {
            k as nat
        } else {
            subtree_ids(table@, table@.len() - 1).len()
        },
{
    let min_search: usize = if min_search_nodes >= k {
        min_search_nodes
    } else {
        k
    };
    let ghost total = subtree_ids(table@, table@.len() - 1).len();
    let mut return_set: TopK = TopK::new(k);
    let mut heap: Vec<(u32, usize)> = Vec::new();
    heap.push((0u32, table.len() - 1));
    let ghost mut pushed: nat = 0;
    proof {
        assert(heap@ =~= Seq::<(u32, usize)>::empty().push((0u32, (table@.len() - 1) as usize)));
        lemma_frontier_ids_push(Seq::empty(), table@, (0u32, (table@.len() - 1) as usize));
        assert(frontier_ids_count(heap@, table@) == total);
    }
    let mut visited: usize = 0;
    loop
        invariant
            wf_arena(table@),
            table@.len() >= 1,
            min_search >= k,
            return_set.inv(),
            return_set.cap() == k,
            forall|i: int| 0 <= i < heap@.len() ==> (#[trigger] heap@[i]).1 < table@.len(),
            forall|e: NodeDistance|
                return_set.contents().contains(e) ==> arena_ids(table@).contains(e.1),
            return_set.contents().len() == if pushed <= k as nat {
                pushed
            } else {
                k as nat
            },
            visited as nat <= pushed,
            pushed + frontier_ids_count(heap@, table@) >= total,
        ensures
            return_set.inv(),
            return_set.cap() == k,
            forall|e: NodeDistance|
                return_set.contents().contains(e) ==> arena_ids(table@).contains(e.1),
            return_set.contents().len() >= if k as nat <= total {
                k as nat
            } else {
                total
            },
        decreases frontier_measure(heap@),
    {
        if heap.len() == 0 {
            proof {
                assert(frontier_ids_count(heap@, table@) == 0);
            }
            break ;
        }
        let ghost pre_heap = heap@;
        let popped: (u32, usize) = pop_best(&mut heap);
        let idx: usize = popped.1;
        proof {
            let i = choose|i: int|
                0 <= i < pre_heap.len() && pre_heap[i] == popped && heap@ == pre_heap.remove(i);
            lemma_frontier_remove(pre_heap, i);
            lemma_frontier_ids_remove(pre_heap, table@, i);
            lemma_pow3_pos(idx as nat);
            assert(wf_node(table@, idx as int));
        }
        match &table[idx] {
            Tree::Leaf { indices } => {
                let mut dists: Vec<u32> = Vec::new();
                let mut j: usize = 0;
                while j < indices.len()
                    invariant
                        j <= indices@.len(),
                        dists@.len() == j,
                    decreases indices@.len() - j,
                {
                    dists.push(es.distance_to_query(indices[j], emb));
                    j = j + 1;
                }
                let ghost s0 = return_set.contents();
                score_leaf(&mut return_set, indices, &dists);
                proof {
                    lemma_node_ids_in_arena(table@, idx as int);
                    broadcast use vstd::seq_lib::group_to_multiset_ensures;

                    // the leaf's whole id count enters the collector's tally
                    assert(subtree_ids(table@, idx as int).len() == indices@.len()) by {
                        assert(subtree_ids(table@, idx as int) == indices@.to_multiset());
                    }
                    crate::topk::lemma_push_fold_len(
                        s0,
                        k as nat,
                        zip_nds(indices@, dists@),
                    );
                    pushed = pushed + indices@.len();

                    assert forall|e: NodeDistance|
                        return_set.contents().contains(e) implies arena_ids(table@).contains(
                        e.1,
                    ) by {
                        lemma_push_fold_contains(s0, k as nat, zip_nds(indices@, dists@), e);
                        if zip_nds(indices@, dists@).contains(e) {
                            let m = choose|m: int|
                                0 <= m < zip_nds(indices@, dists@).len() && zip_nds(
                                    indices@,
                                    dists@,
                                )[m] == e;
                            assert(indices@[m] == e.1);
                            assert(indices@.contains(e.1));
                            assert(node_ids(table@[idx as int]).contains(e.1));
                        }
                    }
                }
                let n: usize = indices.len();
                visited = if usize::MAX - visited >= n {
                    visited + n
                } else {
                    usize::MAX
                };
            },
            Tree::Split { hp, above, below } => {
                let d: u32 = hp.distance(es, emb);
                let pen: u32 = abs_bits(d);
                let ghost h0 = heap@;
                if ge_zero(d) {
                    heap.push((0u32, *above));
                    heap.push((pen, *below));
                } else {
                    heap.push((pen, *above));
                    heap.push((0u32, *below));
                }
                proof {
                    let e1 = heap@[heap@.len() - 2];
                    let e2 = heap@[heap@.len() - 1];
                    assert(heap@ =~= h0.push(e1).push(e2));
                    lemma_frontier_push(h0, e1);
                    lemma_frontier_push(h0.push(e1), e2);
                    lemma_pow3_mono(e1.1 as nat, (idx - 1) as nat);
                    lemma_pow3_mono(e2.1 as nat, (idx - 1) as nat);
                    lemma_pow3_pos((idx - 1) as nat);
                    assert(pow3(idx as nat) == 3 * pow3((idx - 1) as nat));
                    // the split hands its reachable ids on to its children
                    lemma_frontier_ids_push(h0, table@, e1);
                    lemma_frontier_ids_push(h0.push(e1), table@, e2);
                    broadcast use vstd::multiset::group_multiset_axioms;

                    assert(subtree_ids(table@, idx as int) == subtree_ids(
                        table@,
                        e1.1 as int,
                    ).add(subtree_ids(table@, e2.1 as int)));
                }
            },
        }
        if visited >= min_search {
            break ;
        }
    }
    proof {
        return_set.lemma_inv_facts();
    }
    let sorted: Vec<NodeDistance> = return_set.into_sorted();
    let mut out: Vec<(NodeID, u32)> = Vec::new();
    let mut i: usize = 0;
    while i < sorted.len()
        invariant
            sorted_nds(sorted@),
            forall|e: NodeDistance| sorted@.contains(e) ==> arena_ids(table@).contains(e.1),
            i <= sorted@.len(),
            out@.len() == i,
            forall|j: int| 0 <= j < i ==> #[trigger] out@[j] == (sorted@[j].1, sorted@[j].0),
        decreases sorted@.len() - i,
    {
        let nd: NodeDistance = sorted[i];
        out.push(nd.to_tup_cloned());
        proof {
            assert(sorted@.contains(sorted@[i as int]));
        }
        i = i + 1;
    }
    proof {
        assert forall|i: int| 0 <= i < out@.len() implies arena_ids(table@).contains(
            #[trigger] out@[i].0,
        ) by {
            assert(sorted@.contains(sorted@[i]));
        }
    }
    out
}

/// Some tree of the forest holds the id in one of its leaves.
pub open spec fn id_in_forest(views: Seq<Seq<Tree>>, id: NodeID) -> bool {
    exists|t: int| 0 <= t < views.len() && arena_ids(#[trigger] views[t]).contains(id)
}

/// Some tree of the forest has at least one id reachable from its root.
pub open spec fn forest_reaches_ids(views: Seq<Seq<Tree>>) -> bool {
    exists|t: int|
        0 <= t < views.len() && subtree_ids(#[trigger] views[t], views[t].len() - 1).len() >= 1
}

/// The id appears among the first `n` entries of the run.
pub open spec fn id_among(s: Seq<NodeDistance>, n: int, id: NodeID) -> bool {
    exists|a: int| 0 <= a < n && (#[trigger] s[a]).1 == id
}

/// The entry appears among the first `n` entries of the run.
pub open spec fn entry_among(s: Seq<NodeDistance>, n: int, x: NodeDistance) -> bool {
    exists|m: int| 0 <= m < n && #[trigger] s[m] == x
}

/// Merges per-tree candidate entries: sorts ascending by (distance pattern,
/// id), keeps the first entry of each id, and cuts the list to `k`.
///
/// The result is at most `k` entries, strictly ascending, one per id, each
/// taken from the candidates and no larger than any candidate that shares
/// its id; a candidate whose id is missing lost to `k` entries that all
/// rank no worse than it.
#[verifier::loop_isolation(false)]
pub fn merge_candidates(all: Vec<NodeDistance>, k: usize) -> (r: Vec<NodeDistance>)
    ensures
        r@.len() <= k,
        forall|i: int, j: int|
            0 <= i < j < r@.len() ==> pair_lt(nd_pair(#[trigger] r@[i]), nd_pair(#[trigger] r@[j])),
        forall|i: int, j: int| 0 <= i < j < r@.len() ==> r@[i].1 != r@[j].1,
        forall|i: int| 0 <= i < r@.len() ==> all@.contains(#[trigger] r@[i]),
        forall|i: int, c: int|
            0 <= i < r@.len() && 0 <= c < all@.len() && (#[trigger] all@[c]).1 == (
            #[trigger] r@[i]).1 ==> pair_le(nd_pair(r@[i]), nd_pair(all@[c])),
        forall|c: int|
            0 <= c < all@.len() ==> id_among(r@, r@.len() as int, (#[trigger] all@[c]).1) || (
            r@.len() == k && (k > 0 ==> pair_le(nd_pair(r@[k - 1]), nd_pair(all@[c])))),
{
    let ghost all0 = all@;
    let sorted: Vec<NodeDistance> = sorted_entries(all);
    let ghost sv = sorted@;
    let mut out: Vec<NodeDistance> = Vec::new();
    let mut i: usize = 0;
    while i < sorted.len() && out.len() < k
        invariant
            i <= sv.len(),
            out@.len() <= k,
            out@.len() <= i,
            forall|a: int, b: int|
                0 <= a < b < out@.len() ==> pair_lt(
                    nd_pair(#[trigger] out@[a]),
                    nd_pair(#[trigger] out@[b]),
                ),
            forall|a: int, b: int| 0 <= a < b < out@.len() ==> out@[a].1 != out@[b].1,
            forall|a: int| 0 <= a < out@.len() ==> entry_among(sv, i as int, #[trigger] out@[a]),
            forall|a: int, c: int|
                0 <= a < out@.len() && 0 <= c < sv.len() && (#[trigger] sv[c]).1 == (
                #[trigger] out@[a]).1 ==> pair_le(nd_pair(out@[a]), nd_pair(sv[c])),
            forall|c: int| 0 <= c < i ==> id_among(out@, out@.len() as int, (#[trigger] sv[c]).1),
        decreases sv.len() - i,
    {
        let c: NodeDistance = sorted[i];
        let mut found: bool = false;
        let mut a: usize = 0;
        while a < out.len()
            invariant
                a <= out@.len(),
                found <==> id_among(out@, a as int, c.1),
            decreases out@.len() - a,
        {
            if out[a].1 == c.1 {
                found = true;
                proof {
                    assert((out@[a as int]).1 == c.1);
                }
            }
            a = a + 1;
        }
        if !found {
            proof {
                // the new entry ranks strictly after everything held, and no
                // held entry carries its id
                assert forall|b: int| 0 <= b < out@.len() implies pair_lt(
                    nd_pair(#[trigger] out@[b]),
                    nd_pair(c),
                ) && out@[b].1 != c.1 by {
                    let m = choose|m: int| 0 <= m < i && sv[m] == out@[b];
                    assert(pair_le(nd_pair(sv[m]), nd_pair(sv[i as int])));
                    crate::bits::lemma_pair_order_total(nd_pair(out@[b]), nd_pair(c));
                }
                // no earlier candidate carries the new entry's id either
                assert forall|cc: int| 0 <= cc < i implies (#[trigger] sv[cc]).1 != c.1 by {
                    if sv[cc].1 == c.1 {
                        let a0 = choose|a0: int|
                            0 <= a0 < out@.len() && out@[a0].1 == sv[cc].1;
                    }
                }
            }
            let ghost pre = out@;
            out.push(c);
            proof {
                assert(out@[out@.len() - 1] == c);
                assert forall|cc: int|
                    0 <= cc < sv.len() && (#[trigger] sv[cc]).1 == c.1 implies pair_le(
                    nd_pair(c),
                    nd_pair(sv[cc]),
                ) by {
                    assert(cc >= i);
                    assert(pair_le(nd_pair(sv[i as int]), nd_pair(sv[cc])));
                }
                assert(sv[i as int] == c);
                assert(entry_among(sv, i as int + 1, c));
                assert forall|a: int| 0 <= a < out@.len() implies entry_among(
                    sv,
                    i as int + 1,
                    #[trigger] out@[a],
                ) by {
                    if a < pre.len() {
                        assert(out@[a] == pre[a]);
                        let m = choose|m: int| 0 <= m < i && sv[m] == pre[a];
                        assert(entry_among(sv, i as int + 1, out@[a]));
                    }
                }
                assert(id_among(out@, out@.len() as int, sv[i as int].1));
                assert forall|cc: int| 0 <= cc < i + 1 implies id_among(
                    out@,
                    out@.len() as int,
                    (#[trigger] sv[cc]).1,
                ) by {
                    if cc < i {
                        let a0 = choose|a0: int| 0 <= a0 < pre.len() && (#[trigger] pre[a0]).1 == sv[cc].1;
                        assert(out@[a0].1 == sv[cc].1);
                        assert(id_among(out@, out@.len() as int, sv[cc].1));
                    }
                }
            }
        } else {
            proof {
                let b0 = choose|b0: int| 0 <= b0 < out@.len() && (#[trigger] out@[b0]).1 == c.1;
                assert(0 <= b0 < out@.len() && out@[b0].1 == sv[i as int].1);
                assert(id_among(out@, out@.len() as int, sv[i as int].1));
            }
        }
        i = i + 1;
    }
    proof {
        // carry membership and minimality back to the unsorted candidates
        assert forall|a: int| 0 <= a < out@.len() implies all0.contains(#[trigger] out@[a]) by {
            let m = choose|m: int| 0 <= m < i && sv[m] == out@[a];
            assert(sv.contains(out@[a]));
            lemma_same_multiset_contains(sv, all0, out@[a]);
        }
        assert forall|a: int, c: int|
            0 <= a < out@.len() && 0 <= c < all0.len() && (#[trigger] all0[c]).1 == (
            #[trigger] out@[a]).1 implies pair_le(nd_pair(out@[a]), nd_pair(all0[c])) by {
            assert(all0.contains(all0[c]));
            lemma_same_multiset_contains(all0, sv, all0[c]);
            let m = choose|m: int| 0 <= m < sv.len() && sv[m] == all0[c];
            assert(pair_le(nd_pair(out@[a]), nd_pair(sv[m])));
        }
        assert forall|c: int|
            0 <= c < all0.len() implies id_among(out@, out@.len() as int, (#[trigger] all0[c]).1)
            || (out@.len() == k && (k > 0 ==> pair_le(nd_pair(out@[k - 1]), nd_pair(all0[c])))) by {
            assert(all0.contains(all0[c]));
            lemma_same_multiset_contains(all0, sv, all0[c]);
            let m = choose|m: int| 0 <= m < sv.len() && sv[m] == all0[c];
            if m < i {
            } else {
                // unprocessed candidates rank no better than the held tail
                assert(out@.len() == k);
                if k > 0 {
                    let w = choose|w: int| 0 <= w < i && sv[w] == out@[k - 1];
                    assert(pair_le(nd_pair(sv[w]), nd_pair(sv[m])));
                }
            }
        }
    }
    out
}

/// Two runs with the same entries as a bag hold the same entries.
proof fn lemma_same_multiset_contains(a: Seq<NodeDistance>, b: Seq<NodeDistance>, x: NodeDistance)
    requires
        a.to_multiset() == b.to_multiset(),
        a.contains(x),
    ensures
        b.contains(x),
{
    broadcast use vstd::seq_lib::group_to_multiset_ensures;

    assert(a.to_multiset().count(x) > 0);
}


/// The candidates reordered ascending by (distance pattern, id).
fn sorted_entries(src: Vec<NodeDistance>) -> (r: Vec<NodeDistance>)
    ensures
        r@.len() == src@.len(),
        r@.to_multiset() == src@.to_multiset(),
        sorted_nds(r@),
{
    broadcast use vstd::seq_lib::group_to_multiset_ensures;

    let ghost orig = src@;
    let mut src = src;
    let mut out: Vec<NodeDistance> = Vec::new();
    while src.len() > 0
        invariant
            out@.to_multiset().add(src@.to_multiset()) == orig.to_multiset(),
            out@.len() + src@.len() == orig.len(),
            sorted_nds(out@),
            forall|a: int, b: int|
                0 <= a < out@.len() && 0 <= b < src@.len() ==> pair_le(
                    nd_pair(#[trigger] out@[a]),
                    nd_pair(#[trigger] src@[b]),
                ),
        decreases src@.len(),
    {
        let mut m: usize = 0;
        let mut i: usize = 1;
        while i < src.len()
            invariant
                src@.len() > 0,
                m < i,
                i <= src@.len(),
                forall|j: int|
                    0 <= j < i ==> pair_le(
                        nd_pair(src@[m as int]),
                        nd_pair(#[trigger] src@[j]),
                    ),
            decreases src@.len() - i,
        {
            if pair_lt_exec((src[i].0, src[i].1), (src[m].0, src[m].1)) {
                m = i;
            } else {
                proof {
                    crate::bits::lemma_pair_order_total(
                        nd_pair(src@[m as int]),
                        nd_pair(src@[i as int]),
                    );
                }
            }
            i = i + 1;
        }
        let ghost pre_out = out@;
        let ghost pre_src = src@;
        let x: NodeDistance = src.remove(m);
        out.push(x);
        proof {
            broadcast use vstd::seq_lib::group_to_multiset_ensures;

            assert(pre_src.contains(x));
            assert(out@.to_multiset() =~= pre_out.to_multiset().insert(x));
            assert(src@.to_multiset() =~= pre_src.to_multiset().remove(x));
            assert(out@.to_multiset().add(src@.to_multiset()) =~= orig.to_multiset());
            assert forall|a: int, b: int|
                0 <= a < out@.len() && 0 <= b < src@.len() implies pair_le(
                nd_pair(#[trigger] out@[a]),
                nd_pair(#[trigger] src@[b]),
            ) by {
                if b < m {
                    assert(src@[b] == pre_src[b]);
                } else {
                    assert(src@[b] == pre_src[b + 1]);
                }
                if a < pre_out.len() {
                    assert(out@[a] == pre_out[a]);
                } else {
                    assert(out@[a] == x);
                }
            }
        }
    }
    out
}

/// The error `fit` rejects an empty id set with: a forest needs at least
/// one id to index.
#[derive(Clone, Copy, Debug, PartialEq, Eq, Structural)]
pub struct EmptyInput;

/// A forest of random-hyperplane trees over an embedding store; queries
/// return approximate nearest ids, and each tree also projects a query to a
/// leaf index, usable as an inverted-index bucket.
pub struct Ann {
    trees: Vec<Vec<Tree>>,
}

/// The ids `fit` indexes: the given subset, or every id the store holds.
pub open spec fn fitted_ids(node_ids: Option<Vec<NodeID>>, store_len: nat) -> Multiset<NodeID> {
    match node_ids {
        Some(v) => v@.to_multiset(),
        None => Seq::new(store_len, |i: int| i as usize).to_multiset(),
    }
}

impl Ann {
    /// The arenas of the fitted trees.
    pub closed spec fn tree_views(&self) -> Seq<Seq<Tree>> {
        self.trees@.map_values(|v: Vec<Tree>| v@)
    }

    /// Every tree is a nonempty arena whose splits point strictly backward.
    pub closed spec fn wf(&self) -> bool {
        forall|t: int|
            0 <= t < self.trees@.len() ==> wf_arena(#[trigger] self.trees@[t]@) && self.trees@[t]@.len()
                >= 1
    }

    /// What the forest's well-formedness gives its callers: each tree is a
    /// nonempty arena whose splits point strictly backward.
    pub proof fn lemma_wf_facts(&self)
        requires
            self.wf(),
        ensures
            forall|t: int|
                0 <= t < self.tree_views().len() ==> wf_arena(#[trigger] self.tree_views()[t])
                    && self.tree_views()[t].len() >= 1,
    {
    }

    pub fn new() -> (r: Ann)
        ensures
            r.wf(),
            r.tree_views().len() == 0,
    {
        Ann { trees: Vec::new() }
    }

    pub fn num_trees(&self) -> (r: usize)
        ensures
            r == self.tree_views().len(),
    {
        self.trees.len()
    }

    /// Builds `n_trees` arenas over the store, or over the given id subset,
    /// rejecting an empty id set before any construction.  Tree `t` draws
    /// from a generator seeded with `seed + t`, the split heuristics default
    /// to 5 candidate planes scored on 30 samples, and every tree's leaves
    /// hold the input ids exactly, the root standing last in its arena; an
    /// id set shorter than the leaf cutoff makes every tree a single leaf
    /// holding the ids in order.  Without a subset, the ids are the
    /// positions the store reports: 0 up to its length.
    pub fn fit<S: EmbeddingStore>(
        &mut self,
        es: &S,
        n_trees: usize,
        max_nodes_per_leaf: usize,
        test_hp_per_split: Option<usize>,
        num_sampled_nodes_split_test: Option<usize>,
        node_ids: Option<Vec<NodeID>>,
        seed: u64,
    ) -> (r: Result<(), EmptyInput>)
        requires
            match num_sampled_nodes_split_test {
                Some(s) => 1 <= s < usize::MAX - 1,
                None => true,
            },
            seed + n_trees <= u64::MAX,
        ensures
            node_ids matches Some(v) ==> (r is Ok <==> v@.len() > 0),
            r is Err ==> final(self).tree_views() == old(self).tree_views(),
            r is Ok ==> final(self).wf() && final(self).tree_views().len() == n_trees,
            r is Ok ==> exists|n: nat|
                #![trigger fitted_ids(node_ids, n)]
                n >= 1 && (forall|t: int|
                    0 <= t < n_trees ==> arena_ids(#[trigger] final(self).tree_views()[t])
                        == fitted_ids(node_ids, n) && subtree_ids(
                        final(self).tree_views()[t],
                        final(self).tree_views()[t].len() - 1,
                    ) == fitted_ids(node_ids, n)) && (node_ids is None && n < max_nodes_per_leaf
                    ==> forall|t: int|
                    0 <= t < n_trees ==> final(self).tree_views()[t].len() == 1 && (
                    #[trigger] final(self).tree_views()[t][0] is Leaf) && node_id_seq(
                        final(self).tree_views()[t][0],
                    ) == Seq::new(n, |i: int| i as usize)),
            r is Ok && (node_ids matches Some(v)) ==> forall|t: int|
                0 <= t < n_trees ==> arena_ids(#[trigger] final(self).tree_views()[t])
                    == node_ids->Some_0@.to_multiset() && subtree_ids(
                    final(self).tree_views()[t],
                    final(self).tree_views()[t].len() - 1,
                ) == node_ids->Some_0@.to_multiset(),
            r is Ok && (node_ids matches Some(v) && v@.len() < max_nodes_per_leaf) ==> forall|
                t: int,
            |
                0 <= t < n_trees ==> final(self).tree_views()[t].len() == 1 && (
                #[trigger] final(self).tree_views()[t][0] is Leaf) && node_id_seq(
                    final(self).tree_views()[t][0],
                ) == node_ids->Some_0@,
    {
        match &node_ids {
            Some(v) => {
                if v.len() == 0 {
                    return Err(EmptyInput);
                }
            },
            None => {
                if es.len() == 0 {
                    return Err(EmptyInput);
                }
            },
        }
        let config = AnnBuildConfig {
            max_nodes_per_leaf,
            test_hp_per_split: match test_hp_per_split {
                Some(v) => v,
                None => 5,
            },
            num_sampled_nodes_split_test: match num_sampled_nodes_split_test {
                Some(v) => v,
                None => 30,
            },
        };
        let n_default: usize = match &node_ids {
            Some(_) => 0,
            None => es.len(),
        };
        if node_ids.is_none() && n_default == 0 {
            // the store emptied between the two reads: still an empty input
            return Err(EmptyInput);
        }
        let ghost shared_ids = fitted_ids(node_ids, n_default as nat);
        let ghost input_seq: Seq<NodeID> = match &node_ids {
            Some(v) => v@,
            None => Seq::new(n_default as nat, |i: int| i as usize),
        };
        let mut trees: Vec<Vec<Tree>> = Vec::new();
        let mut t: usize = 0;
        while t < n_trees
            invariant
                trees@.len() == t,
                t <= n_trees,
                seed + n_trees <= u64::MAX,
                node_ids matches Some(v) ==> v@.len() > 0,
                node_ids is None ==> n_default >= 1,
                config.max_nodes_per_leaf == max_nodes_per_leaf,
                1 <= config.num_sampled_nodes_split_test < usize::MAX - 1,
                shared_ids == fitted_ids(node_ids, n_default as nat),
                input_seq == match &node_ids {
                    Some(v) => v@,
                    None => Seq::new(n_default as nat, |i: int| i as usize),
                },
                input_seq.len() >= 1,
                forall|m: int|
                    0 <= m < t ==> wf_arena(#[trigger] trees@[m]@) && trees@[m]@.len() >= 1
                        && arena_ids(trees@[m]@) == shared_ids && subtree_ids(
                        trees@[m]@,
                        trees@[m]@.len() - 1,
                    ) == shared_ids,
                input_seq.len() < max_nodes_per_leaf ==> forall|m: int|
                    0 <= m < t ==> trees@[m]@.len() == 1 && (#[trigger] trees@[m]@[0] is Leaf)
                        && node_id_seq(trees@[m]@[0]) == input_seq,
            decreases n_trees - t,
        {
            let mut indices: Vec<(NodeID, bool)> = Vec::new();
            match &node_ids {
                Some(nids) => {
                    let mut j: usize = 0;
                    while j < nids.len()
                        invariant
                            j <= nids@.len(),
                            indices@.len() == j,
                            forall|m: int|
                                0 <= m < j ==> #[trigger] indices@[m] == (nids@[m], false),
                        decreases nids@.len() - j,
                    {
                        indices.push((nids[j], false));
                        j = j + 1;
                    }
                    proof {
                        assert(ids_of(indices@) =~= nids@);
                    }
                },
                None => {
                    let mut j: usize = 0;
                    while j < n_default
                        invariant
                            j <= n_default,
                            indices@.len() == j,
                            forall|m: int| 0 <= m < j ==> #[trigger] indices@[m] == (m as usize, false),
                        decreases n_default - j,
                    {
                        indices.push((j, false));
                        j = j + 1;
                    }
                    proof {
                        assert(ids_of(indices@) =~= Seq::new(
                            n_default as nat,
                            |i: int| i as usize,
                        ));
                    }
                },
            }
            let mut rng: XorShiftRng = rng_from_seed(seed + t as u64);
            let mut table: Vec<Tree> = Vec::new();
            let hi: usize = indices.len();
            let ghost pre = indices@;
            proof {
                assert(ids_of(pre) == input_seq);
                assert(hi >= 1);
            }
            fit_group(&config, &mut table, es, &mut indices, 0, hi, &mut rng);
            proof {
                assert(pre.subrange(0, pre.len() as int) =~= pre);
                assert(arena_ids(table@) == ids_of(pre).to_multiset());
                assert(subtree_ids(table@, table@.len() - 1) == ids_of(pre).to_multiset());
                assert(shared_ids == ids_of(pre).to_multiset());
                if input_seq.len() < max_nodes_per_leaf {
                    assert(table@.len() == 1 && (table@[0] is Leaf) && node_id_seq(table@[0])
                        == input_seq);
                }
            }
            trees.push(table);
            t = t + 1;
        }
        self.trees = trees;
        proof {
            assert(final(self).tree_views().len() == n_trees);
            assert forall|t: int|
                0 <= t < n_trees implies arena_ids(#[trigger] final(self).tree_views()[t])
                == fitted_ids(node_ids, n_default as nat) && subtree_ids(
                final(self).tree_views()[t],
                final(self).tree_views()[t].len() - 1,
            ) == fitted_ids(node_ids, n_default as nat) by {
                assert(final(self).tree_views()[t] == trees@[t]@);
            }
            let ghost n_w: nat = match &node_ids {
                Some(v) => v@.len(),
                None => n_default as nat,
            };
            assert(fitted_ids(node_ids, n_w) == fitted_ids(node_ids, n_default as nat));
            if node_ids is None && n_w < max_nodes_per_leaf {
                assert forall|t: int| 0 <= t < n_trees implies final(self).tree_views()[t].len()
                    == 1 && (#[trigger] final(self).tree_views()[t][0] is Leaf) && node_id_seq(
                    final(self).tree_views()[t][0],
                ) == Seq::new(n_w, |i: int| i as usize) by {
                    assert(final(self).tree_views()[t] == trees@[t]@);
                }
            }
            match &node_ids {
                Some(v) => {
                    if v@.len() < max_nodes_per_leaf {
                        assert forall|t: int|
                            0 <= t < n_trees implies final(self).tree_views()[t].len() == 1 && (
                        #[trigger] final(self).tree_views()[t][0] is Leaf) && node_id_seq(
                            final(self).tree_views()[t][0],
                        ) == v@ by {
                            assert(final(self).tree_views()[t] == trees@[t]@);
                        }
                    }
                },
                None => {},
            }
        }
        Ok(())
    }


    /// The per-tree depth: the number of nodes on each arena's longest
    /// root-to-leaf path, in tree order.
    pub fn depth(&self) -> (r: Vec<usize>)
        requires
            self.wf(),
        ensures
            r@.len() == self.tree_views().len(),
            forall|t: int|
                0 <= t < r@.len() ==> r@[t] == depth_of(
                    #[trigger] self.tree_views()[t],
                    self.tree_views()[t].len() - 1,
                ),
    {
        let mut r: Vec<usize> = Vec::new();
        let mut t: usize = 0;
        while t < self.trees.len()
            invariant
                self.wf(),
                t <= self.trees@.len(),
                r@.len() == t,
                forall|m: int|
                    0 <= m < t ==> r@[m] == depth_of(
                        #[trigger] self.tree_views()[m],
                        self.tree_views()[m].len() - 1,
                    ),
            decreases self.trees@.len() - t,
        {
            let table: &Vec<Tree> = &self.trees[t];
            r.push(tree_depth(table, table.len() - 1));
            t = t + 1;
        }
        r
    }

    /// The approximate `k` nearest ids to the query: per-tree best-first
    /// searches, fused ascending by (distance pattern, id), one entry per
    /// id, cut to `k`.
    pub fn predict<S: EmbeddingStore>(
        &self,
        es: &S,
        emb: &Vec<u32>,
        k: usize,
        min_search_nodes: Option<usize>,
    ) -> (r: Vec<NodeDistance>)
        requires
            self.wf(),
        ensures
            r@.len() <= k,
            forall|i: int, j: int|
                0 <= i < j < r@.len() ==> pair_lt(
                    nd_pair(#[trigger] r@[i]),
                    nd_pair(#[trigger] r@[j]),
                ),
            forall|i: int, j: int| 0 <= i < j < r@.len() ==> r@[i].1 != r@[j].1,
            forall|i: int|
                0 <= i < r@.len() ==> id_in_forest(self.tree_views(), (#[trigger] r@[i]).1),
            k >= 1 && forest_reaches_ids(self.tree_views()) ==> r@.len() >= 1,
    {
        let min_search: usize = match min_search_nodes {
            Some(m) => m,
            None => {
                if k == 0 {
                    0
                } else if self.trees.len() <= usize::MAX / k {
                    proof {
                        assert(self.trees@.len() * k <= (usize::MAX as int / k as int) * k) by (nonlinear_arith)
                            requires
                                self.trees@.len() <= usize::MAX as int / k as int,
                                k > 0,
                        ;
                        assert((usize::MAX as int / k as int) * k <= usize::MAX) by (nonlinear_arith)
                            requires
                                k > 0,
                        ;
                    }
                    self.trees.len() * k
                } else {
                    usize::MAX
                }
            },
        };
        let mut all: Vec<NodeDistance> = Vec::new();
        let mut t: usize = 0;
        while t < self.trees.len()
            invariant
                self.wf(),
                t <= self.trees@.len(),
                forall|i: int|
                    0 <= i < all@.len() ==> id_in_forest(self.tree_views(), (#[trigger] all@[i]).1),
                forall|m: int|
                    0 <= m < t && k >= 1 && subtree_ids(
                        #[trigger] self.tree_views()[m],
                        self.tree_views()[m].len() - 1,
                    ).len() >= 1 ==> all@.len() >= 1,
            decreases self.trees@.len() - t,
        {
            let table: &Vec<Tree> = &self.trees[t];
            let ghost all_pre_tree = all@;
            let scores: Vec<(NodeID, u32)> = tree_predict(table, es, emb, k, min_search);
            proof {
                assert(self.tree_views()[t as int] == table@);
            }
            let mut i: usize = 0;
            while i < scores.len()
                invariant
                    t < self.trees@.len(),
                    i <= scores@.len(),
                    all@.len() >= all_pre_tree.len() + i,
                    forall|j: int|
                        0 <= j < scores@.len() ==> arena_ids(self.trees@[t as int]@).contains(
                            (#[trigger] scores@[j]).0,
                        ),
                    forall|j: int|
                        0 <= j < all@.len() ==> id_in_forest(
                            self.tree_views(),
                            (#[trigger] all@[j]).1,
                        ),
                decreases scores@.len() - i,
            {
                let c: (NodeID, u32) = scores[i];
                let ghost pre = all@;
                all.push(DistanceFromEntity(c.1, c.0));
                proof {
                    assert(self.tree_views()[t as int] == self.trees@[t as int]@);
                    assert(arena_ids(self.tree_views()[t as int]).contains(c.0));
                    assert(id_in_forest(self.tree_views(), c.0));
                    assert forall|j: int| 0 <= j < all@.len() implies id_in_forest(
                        self.tree_views(),
                        (#[trigger] all@[j]).1,
                    ) by {
                        if j < pre.len() {
                            assert(all@[j] == pre[j]);
                        } else {
                            assert(all@[j].1 == c.0);
                        }
                    }
                }
                i = i + 1;
            }
            proof {
                // a tree with reachable ids contributed at least min(k, 1)
                assert forall|m: int|
                    0 <= m < t + 1 && k >= 1 && subtree_ids(
                        #[trigger] self.tree_views()[m],
                        self.tree_views()[m].len() - 1,
                    ).len() >= 1 implies all@.len() >= 1 by {
                    if m == t as int {
                        assert(scores@.len() >= 1);
                    }
                }
            }
            t = t + 1;
        }
        let ghost all0 = all@;
        let r: Vec<NodeDistance> = merge_candidates(all, k);
        proof {
            assert forall|i: int| 0 <= i < r@.len() implies id_in_forest(
                self.tree_views(),
                (#[trigger] r@[i]).1,
            ) by {
                assert(all0.contains(r@[i]));
                let c = choose|c: int| 0 <= c < all0.len() && all0[c] == r@[i];
                assert(id_in_forest(self.tree_views(), all0[c].1));
            }
            if k >= 1 && forest_reaches_ids(self.tree_views()) {
                let t0 = choose|t0: int|
                    0 <= t0 < self.tree_views().len() && subtree_ids(
                        #[trigger] self.tree_views()[t0],
                        self.tree_views()[t0].len() - 1,
                    ).len() >= 1;
                assert(all0.len() >= 1);
                // a nonempty candidate set leaves at least one fused entry
                assert(id_among(r@, r@.len() as int, all0[0].1) || (r@.len() == k && (k > 0
                    ==> pair_le(nd_pair(r@[k - 1]), nd_pair(all0[0])))));
                if id_among(r@, r@.len() as int, all0[0].1) {
                    let a = choose|a: int| 0 <= a < r@.len() && (#[trigger] r@[a]).1 == all0[0].1;
                }
            }
        }
        r
    }

    /// The number of nodes in the arena of tree `t`.
    pub fn tree_size(&self, t: usize) -> (r: usize)
        requires
            t < self.tree_views().len(),
        ensures
            r == self.tree_views()[t as int].len(),
    {
        self.trees[t].len()
    }

    /// Whether node `idx` of tree `t` is a leaf.
    pub fn node_is_leaf(&self, t: usize, idx: usize) -> (r: bool)
        requires
            t < self.tree_views().len(),
            idx < self.tree_views()[t as int].len(),
        ensures
            r == (self.tree_views()[t as int][idx as int] is Leaf),
    {
        match &self.trees[t][idx] {
            Tree::Leaf { .. } => true,
            Tree::Split { .. } => false,
        }
    }

    /// The ids the node at `idx` of tree `t` holds, in leaf order; a split
    /// holds none.
    pub fn leaf_ids(&self, t: usize, idx: usize) -> (r: Vec<NodeID>)
        requires
            t < self.tree_views().len(),
            idx < self.tree_views()[t as int].len(),
        ensures
            r@ == node_id_seq(self.tree_views()[t as int][idx as int]),
    {
        match &self.trees[t][idx] {
            Tree::Leaf { indices } => {
                let mut r: Vec<NodeID> = Vec::new();
                let mut j: usize = 0;
                while j < indices.len()
                    invariant
                        j <= indices@.len(),
                        r@ == indices@.take(j as int),
                    decreases indices@.len() - j,
                {
                    r.push(indices[j]);
                    proof {
                        assert(r@ =~= indices@.take(j as int + 1));
                    }
                    j = j + 1;
                }
                proof {
                    assert(indices@.take(indices@.len() as int) =~= indices@);
                }
                r
            },
            Tree::Split { .. } => Vec::new(),
        }
    }

    /// The (above, below) child indices of the split at `idx` of tree `t`;
    /// `None` for a leaf.
    pub fn split_children(&self, t: usize, idx: usize) -> (r: Option<(usize, usize)>)
        requires
            t < self.tree_views().len(),
            idx < self.tree_views()[t as int].len(),
        ensures
            match r {
                Some(p) => self.tree_views()[t as int][idx as int] matches Tree::Split {
                    above,
                    below,
                    ..
                } && p.0 == above && p.1 == below,
                None => self.tree_views()[t as int][idx as int] is Leaf,
            },
    {
        match &self.trees[t][idx] {
            Tree::Leaf { .. } => None,
            Tree::Split { above, below, .. } => Some((*above, *below)),
        }
    }

    /// The arena index of the leaf each tree descends the query to, in tree
    /// order; every returned index refers to a leaf.
    pub fn predict_leaf_indices<S: EmbeddingStore>(&self, es: &S, emb: &Vec<u32>) -> (r: Vec<usize>)
        requires
            self.wf(),
        ensures
            r@.len() == self.tree_views().len(),
            forall|t: int|
                0 <= t < r@.len() ==> r@[t] < self.tree_views()[t].len() && (
                #[trigger] self.tree_views()[t][r@[t] as int] is Leaf) && root_reaches(
                    self.tree_views()[t],
                    r@[t],
                ),
    {
        let mut r: Vec<usize> = Vec::new();
        let mut t: usize = 0;
        while t < self.trees.len()
            invariant
                self.wf(),
                t <= self.trees@.len(),
                r@.len() == t,
                forall|m: int|
                    0 <= m < t ==> r@[m] < self.tree_views()[m].len() && (
                    #[trigger] self.tree_views()[m][r@[m] as int] is Leaf) && root_reaches(
                        self.tree_views()[m],
                        r@[m],
                    ),
            decreases self.trees@.len() - t,
        {
            let table: &Vec<Tree> = &self.trees[t];
            let ghost pre = r@;
            let leaf: usize = tree_leaf_index(table, es, emb);
            r.push(leaf);
            proof {
                assert(self.tree_views()[t as int] == table@);
                assert(root_reaches(self.tree_views()[t as int], leaf));
                assert forall|m: int|
                    0 <= m < t + 1 implies r@[m] < self.tree_views()[m].len() && (
                #[trigger] self.tree_views()[m][r@[m] as int] is Leaf) && root_reaches(
                    self.tree_views()[m],
                    r@[m],
                ) by {
                    if m < t as int {
                        assert(r@[m] == pre[m]);
                    } else {
                        assert(r@[m] == leaf);
                    }
                }
            }
            t = t + 1;
        }
        r
    }

    /// The split indices each tree's descent of the query visits, root
    /// first, leaf excluded, in tree order.  Each path is a descent of its
    /// arena, and each is at least one node shorter than that tree's depth.
    pub fn predict_leaf_paths<S: EmbeddingStore>(&self, es: &S, emb: &Vec<u32>) -> (r: Vec<
        Vec<usize>,
    >)
        requires
            self.wf(),
        ensures
            r@.len() == self.tree_views().len(),
            forall|t: int|
                0 <= t < r@.len() ==> descends_to_leaf(#[trigger] self.tree_views()[t], r@[t]@),
            forall|t: int|
                0 <= t < r@.len() ==> (#[trigger] r@[t]@.len()) + 1 <= depth_of(
                    self.tree_views()[t],
                    self.tree_views()[t].len() - 1,
                ),
    {
        let mut r: Vec<Vec<usize>> = Vec::new();
        let mut t: usize = 0;
        while t < self.trees.len()
            invariant
                self.wf(),
                t <= self.trees@.len(),
                r@.len() == t,
                forall|m: int|
                    0 <= m < t ==> descends_to_leaf(#[trigger] self.tree_views()[m], r@[m]@),
                forall|m: int|
                    0 <= m < t ==> (#[trigger] r@[m]@.len()) + 1 <= depth_of(
                        self.tree_views()[m],
                        self.tree_views()[m].len() - 1,
                    ),
            decreases self.trees@.len() - t,
        {
            let table: &Vec<Tree> = &self.trees[t];
            let p: Vec<usize> = tree_leaf_path(table, es, emb);
            let ghost pre = r@;
            r.push(p);
            proof {
                assert(self.tree_views()[t as int] == table@);
                assert(r@[t as int] == p);
                assert(descends_to_leaf(self.tree_views()[t as int], r@[t as int]@));
                assert forall|m: int| 0 <= m < t + 1 implies descends_to_leaf(
                    #[trigger] self.tree_views()[m],
                    r@[m]@,
                ) by {
                    if m < t as int {
                        assert(r@[m] == pre[m]);
                    }
                }
            }
            t = t + 1;
        }
        r
    }
}

} // verus!
