use vstd::prelude::*;
use vstd::multiset::Multiset;
use crate::NodeID;
use crate::bits::ge_zero;
use crate::store::{EmbeddingStore, dot};

verus! {

/// A linear decision surface: a point lies above when the signed distance
/// `dot(coef, point) + bias` encodes a value at or above zero.
pub struct Hyperplane {
    pub coef: Vec<u32>,
    pub bias: u32,
}

impl Hyperplane {
    pub(crate) fn new(coef: Vec<u32>, bias: u32) -> (r: Hyperplane)
        ensures
            r.coef == coef,
            r.bias == bias,
    {
        Hyperplane { coef, bias }
    }

    /// The signed distance pattern of a point, in the store's arithmetic.
    pub(crate) fn distance<S: EmbeddingStore>(&self, es: &S, emb: &Vec<u32>) -> u32 {
        es.scalar_add(dot(es, &self.coef, emb), self.bias)
    }

    /// Whether the signed distance encodes a value at or above zero; the
    /// zero patterns count as above.
    pub(crate) fn point_is_above<S: EmbeddingStore>(&self, es: &S, emb: &Vec<u32>) -> bool {
        ge_zero(self.distance(es, emb))
    }
}

/// One node of a tree arena: a leaf holding ids, or a split holding a
/// hyperplane and the arena indices of its two children.
pub enum Tree {
    Leaf { indices: Vec<NodeID> },
    Split { hp: Hyperplane, above: usize, below: usize },
}

/// A split's children stand strictly before it and are distinct; the root
/// is therefore always the last element.
pub open spec fn wf_node(s: Seq<Tree>, i: int) -> bool {
    match s[i] {
        Tree::Leaf { .. } => true,
        Tree::Split { above, below, .. } => above < i && below < i && above != below,
    }
}

pub open spec fn wf_arena(s: Seq<Tree>) -> bool {
    forall|i: int| 0 <= i < s.len() ==> #[trigger] wf_node(s, i)
}

/// The ids a single node holds in order: a leaf's contents, nothing for a
/// split.
pub open spec fn node_id_seq(t: Tree) -> Seq<NodeID> {
    match t {
        Tree::Leaf { indices } => indices@,
        Tree::Split { .. } => Seq::empty(),
    }
}

/// The ids a single node holds: a leaf's contents, nothing for a split.
pub open spec fn node_ids(t: Tree) -> Multiset<NodeID> {
    match t {
        Tree::Leaf { indices } => indices@.to_multiset(),
        Tree::Split { .. } => Multiset::empty(),
    }
}

/// The ids held by the nodes of the index range `[from, to)`.
pub open spec fn ids_between(s: Seq<Tree>, from: int, to: int) -> Multiset<NodeID>
    decreases to - from,
{
    if from < to && 0 <= from && to <= s.len() {
        node_ids(s[from]).add(ids_between(s, from + 1, to))
    } else {
        Multiset::empty()
    }
}

/// The ids held across all leaves of the arena.
pub open spec fn arena_ids(s: Seq<Tree>) -> Multiset<NodeID> {
    ids_between(s, 0, s.len() as int)
}

/// The range's ids depend only on the range's nodes.
pub proof fn lemma_ids_between_frame(s1: Seq<Tree>, s2: Seq<Tree>, from: int, to: int)
    requires
        0 <= from,
        to <= s1.len(),
        to <= s2.len(),
        forall|i: int| from <= i < to ==> s1[i] == s2[i],
    ensures
        ids_between(s1, from, to) == ids_between(s2, from, to),
    decreases to - from,
{
    if from < to {
        lemma_ids_between_frame(s1, s2, from + 1, to);
    }
}

/// Ranges add up.
pub proof fn lemma_ids_between_concat(s: Seq<Tree>, a: int, b: int, c: int)
    requires
        0 <= a <= b <= c <= s.len(),
    ensures
        ids_between(s, a, c) == ids_between(s, a, b).add(ids_between(s, b, c)),
    decreases b - a,
{
    if a < b {
        lemma_ids_between_concat(s, a + 1, b, c);
        assert(ids_between(s, a, c) =~= ids_between(s, a, b).add(ids_between(s, b, c)));
    } else {
        assert(ids_between(s, a, b) =~= Multiset::empty());
        assert(ids_between(s, a, c) =~= ids_between(s, a, b).add(ids_between(s, b, c)));
    }
}

/// A single node's range holds exactly that node's ids.
pub proof fn lemma_ids_between_single(s: Seq<Tree>, i: int)
    requires
        0 <= i < s.len(),
    ensures
        ids_between(s, i, i + 1) == node_ids(s[i]),
{
    assert(ids_between(s, i + 1, i + 1) =~= Multiset::<NodeID>::empty());
    assert(ids_between(s, i, i + 1) =~= node_ids(s[i]).add(Multiset::empty()));
    assert(node_ids(s[i]).add(Multiset::empty()) =~= node_ids(s[i]));
}

/// Whatever one node holds, the whole arena holds.
pub proof fn lemma_node_ids_in_arena(s: Seq<Tree>, i: int)
    requires
        0 <= i < s.len(),
    ensures
        forall|x: NodeID| node_ids(s[i]).contains(x) ==> arena_ids(s).contains(x),
{
    lemma_ids_between_concat(s, 0, i, s.len() as int);
    lemma_ids_between_concat(s, i, i + 1, s.len() as int);
    lemma_ids_between_single(s, i);
}

/// The ids of the leaves reachable from node `i` by child steps.
pub open spec fn subtree_ids(s: Seq<Tree>, i: int) -> Multiset<NodeID>
    decreases i,
{
    if 0 <= i < s.len() {
        match s[i] {
            Tree::Leaf { indices } => indices@.to_multiset(),
            Tree::Split { above, below, .. } => {
                if above < i && below < i {
                    subtree_ids(s, above as int).add(subtree_ids(s, below as int))
                } else {
                    Multiset::empty()
                }
            },
        }
    } else {
        Multiset::empty()
    }
}

/// A subtree's reachable ids depend only on the nodes up to its root.
pub proof fn lemma_subtree_frame(s1: Seq<Tree>, s2: Seq<Tree>, i: int)
    requires
        0 <= i < s1.len(),
        i < s2.len(),
        forall|j: int| 0 <= j <= i ==> s1[j] == s2[j],
    ensures
        subtree_ids(s1, i) == subtree_ids(s2, i),
    decreases i,
{
    match s1[i] {
        Tree::Leaf { .. } => {},
        Tree::Split { above, below, .. } => {
            if above < i && below < i {
                lemma_subtree_frame(s1, s2, above as int);
                lemma_subtree_frame(s1, s2, below as int);
            }
        },
    }
}

/// The node's children, if it has any, stand at or after `from`.
pub open spec fn children_at_least(s: Seq<Tree>, i: int, from: int) -> bool {
    match s[i] {
        Tree::Leaf { .. } => true,
        Tree::Split { above, below, .. } => above >= from && below >= from,
    }
}

/// The number of nodes on the longest root-to-leaf path of the subtree
/// rooted at index `i`: a leaf counts 1, a split one more than its deeper
/// child.
pub open spec fn depth_of(s: Seq<Tree>, i: int) -> nat
    decreases i,
{
    if 0 <= i < s.len() {
        match s[i] {
            Tree::Leaf { .. } => 1,
            Tree::Split { above, below, .. } => {
                if above < i && below < i {
                    let da = depth_of(s, above as int);
                    let db = depth_of(s, below as int);
                    1 + if da >= db {
                        da
                    } else {
                        db
                    }
                } else {
                    1
                }
            },
        }
    } else {
        1
    }
}

/// Children stand before their parent, so depth is bounded by position.
pub proof fn lemma_depth_le(s: Seq<Tree>, i: int)
    requires
        0 <= i < s.len(),
    ensures
        depth_of(s, i) <= i + 1,
    decreases i,
{
    match s[i] {
        Tree::Leaf { .. } => {},
        Tree::Split { above, below, .. } => {
            if above < i && below < i {
                lemma_depth_le(s, above as int);
                lemma_depth_le(s, below as int);
            }
        },
    }
}

/// A subtree's depth depends only on the nodes up to its root.
pub proof fn lemma_depth_frame(s1: Seq<Tree>, s2: Seq<Tree>, i: int)
    requires
        0 <= i < s1.len(),
        i < s2.len(),
        forall|j: int| 0 <= j <= i ==> s1[j] == s2[j],
    ensures
        depth_of(s1, i) == depth_of(s2, i),
    decreases i,
{
    match s1[i] {
        Tree::Leaf { .. } => {},
        Tree::Split { above, below, .. } => {
            if above < i && below < i {
                lemma_depth_frame(s1, s2, above as int);
                lemma_depth_frame(s1, s2, below as int);
            }
        },
    }
}

/// One descent step: `child` is a child of the split at `parent`.
pub open spec fn steps_to(s: Seq<Tree>, parent: int, child: int) -> bool {
    &&& 0 <= parent < s.len()
    &&& match s[parent] {
        Tree::Split { above, below, .. } => child == above || child == below,
        Tree::Leaf { .. } => false,
    }
}

/// `p` lists the nodes of a descent from the root, in order, and the next
/// node after the listed ones is `n`: with `p` empty, `n` is the root
/// itself; otherwise the last listed node steps to `n`.
pub open spec fn chain_to(s: Seq<Tree>, p: Seq<usize>, n: usize) -> bool
    decreases p.len(),
{
    if p.len() == 0 {
        s.len() >= 1 && n as int == s.len() - 1
    } else {
        chain_to(s, p.drop_last(), p.last()) && steps_to(s, p.last() as int, n as int)
    }
}

/// `p` lists the nodes of a descent that begins at `start` and goes on to
/// `n`: with `p` empty it stands at `start`; otherwise `p` opens with
/// `start` and each listed node steps to the next, the last stepping to
/// `n`.
pub open spec fn chain_from(s: Seq<Tree>, start: usize, p: Seq<usize>, n: usize) -> bool
    decreases p.len(),
{
    if p.len() == 0 {
        n == start
    } else {
        let next = if p.len() == 1 {
            n
        } else {
            p[1]
        };
        p[0] == start && steps_to(s, start as int, next as int) && chain_from(
            s,
            next,
            p.drop_first(),
            n,
        )
    }
}

/// Any descent from `start` that ends at a leaf fits within the subtree's
/// depth.
pub proof fn lemma_chain_from_le_depth(s: Seq<Tree>, start: usize, p: Seq<usize>, leaf: usize)
    requires
        wf_arena(s),
        start < s.len(),
        chain_from(s, start, p, leaf),
        s[leaf as int] is Leaf,
        leaf < s.len(),
    ensures
        p.len() + 1 <= depth_of(s, start as int),
    decreases p.len(),
{
    if p.len() == 0 {
    } else {
        let next = if p.len() == 1 {
            leaf
        } else {
            p[1]
        };
        assert(wf_node(s, start as int));
        lemma_chain_from_le_depth(s, next, p.drop_first(), leaf);
    }
}

/// Some descent from `i` reaches a leaf through exactly `depth_of(s, i) - 1`
/// splits: the deeper child, taken at every split, attains the depth.
pub proof fn lemma_depth_path_exists(s: Seq<Tree>, i: usize)
    requires
        wf_arena(s),
        i < s.len(),
    ensures
        exists|p: Seq<usize>, leaf: usize|
            chain_from(s, i, p, leaf) && leaf < s.len() && (#[trigger] s[leaf as int] is Leaf) && (
            #[trigger] p.len()) + 1 == depth_of(s, i as int),
    decreases i,
{
    assert(wf_node(s, i as int));
    match s[i as int] {
        Tree::Leaf { .. } => {
            let p = Seq::<usize>::empty();
            assert(chain_from(s, i, p, i) && i < s.len() && (s[i as int] is Leaf) && p.len() + 1
                == depth_of(s, i as int));
        },
        Tree::Split { above, below, .. } => {
            let c: usize = if depth_of(s, above as int) >= depth_of(s, below as int) {
                above
            } else {
                below
            };
            lemma_depth_path_exists(s, c);
            let (p, leaf) = choose|p: Seq<usize>, leaf: usize|
                chain_from(s, c, p, leaf) && leaf < s.len() && (#[trigger] s[leaf as int] is Leaf)
                    && (#[trigger] p.len()) + 1 == depth_of(s, c as int);
            let q = seq![i] + p;
            assert(q.drop_first() =~= p);
            if p.len() == 0 {
                assert(leaf == c);
                assert(chain_from(s, i, q, leaf));
            } else {
                assert(q[1] == p[0]);
                assert(p[0] == c);
                assert(chain_from(s, i, q, leaf));
            }
            assert(q.len() + 1 == depth_of(s, i as int));
        },
    }
}

/// The reported depth names the longest root-to-leaf path: no descent from
/// the root to a leaf visits more nodes, and one visits exactly that many.
pub proof fn lemma_depth_is_longest_path(s: Seq<Tree>)
    requires
        wf_arena(s),
        1 <= s.len() <= usize::MAX,
    ensures
        forall|p: Seq<usize>, leaf: usize|
            chain_from(s, (s.len() - 1) as usize, p, leaf) && leaf < s.len() && (
            #[trigger] s[leaf as int] is Leaf) ==> (#[trigger] p.len()) + 1 <= depth_of(
                s,
                s.len() - 1,
            ),
        exists|p: Seq<usize>, leaf: usize|
            chain_from(s, (s.len() - 1) as usize, p, leaf) && leaf < s.len() && (
            #[trigger] s[leaf as int] is Leaf) && (#[trigger] p.len()) + 1 == depth_of(
                s,
                s.len() - 1,
            ),
{
    let root = (s.len() - 1) as usize;
    assert forall|p: Seq<usize>, leaf: usize|
        chain_from(s, root, p, leaf) && leaf < s.len() && (
        #[trigger] s[leaf as int] is Leaf) implies (#[trigger] p.len()) + 1 <= depth_of(
        s,
        s.len() - 1,
    ) by {
        lemma_chain_from_le_depth(s, root, p, leaf);
    }
    lemma_depth_path_exists(s, root);
}

/// Some descent from the root arrives at node `n`.
pub open spec fn root_reaches(s: Seq<Tree>, n: usize) -> bool {
    exists|p: Seq<usize>| chain_to(s, p, n)
}

/// `p` is a full descent of the arena: it steps from the root through
/// splits and reaches a leaf, the leaf itself not listed.
pub open spec fn descends_to_leaf(s: Seq<Tree>, p: Seq<usize>) -> bool {
    exists|leaf: usize| chain_to(s, p, leaf) && leaf < s.len() && (#[trigger] s[leaf as int] is Leaf)
}

/// A descent reaching `n` leaves at least its own length of extra depth at
/// the root.
pub proof fn lemma_chain_depth(s: Seq<Tree>, p: Seq<usize>, n: usize)
    requires
        wf_arena(s),
        s.len() >= 1,
        chain_to(s, p, n),
        n < s.len(),
    ensures
        p.len() + depth_of(s, n as int) <= depth_of(s, s.len() - 1),
    decreases p.len(),
{
    if p.len() != 0 {
        let last = p.last();
        assert(wf_node(s, last as int));
        lemma_chain_depth(s, p.drop_last(), last);
    }
}

/// The longest root-to-leaf path of the whole arena, in nodes.
pub(crate) fn tree_depth(table: &Vec<Tree>, node: usize) -> (r: usize)
    requires
        wf_arena(table@),
        node < table@.len(),
    ensures
        r == depth_of(table@, node as int),
    decreases node,
{
    let total: usize = table.len();
    proof {
        assert(wf_node(table@, node as int));
    }
    match &table[node] {
        Tree::Leaf { .. } => 1,
        Tree::Split { above, below, .. } => {
            let a: usize = *above;
            let b: usize = *below;
            proof {
                lemma_depth_le(table@, a as int);
                lemma_depth_le(table@, b as int);
            }
            let da = tree_depth(table, a);
            let db = tree_depth(table, b);
            if da >= db {
                da + 1
            } else {
                db + 1
            }
        },
    }
}

/// The arena index of the leaf a query descends to, taking the `above`
/// child at each split exactly when the query lies at or above its plane.
pub(crate) fn tree_leaf_index<S: EmbeddingStore>(table: &Vec<Tree>, es: &S, emb: &Vec<u32>) -> (r:
    usize)
    requires
        wf_arena(table@),
        table@.len() >= 1,
    ensures
        r < table@.len(),
        table@[r as int] is Leaf,
        root_reaches(table@, r),
{
    let mut node: usize = table.len() - 1;
    let ghost mut path: Seq<usize> = Seq::empty();
    loop
        invariant
            wf_arena(table@),
            table@.len() >= 1,
            node < table@.len(),
            chain_to(table@, path, node),
        decreases node,
    {
        proof {
            assert(wf_node(table@, node as int));
        }
        match &table[node] {
            Tree::Leaf { .. } => {
                proof {
                    assert(chain_to(table@, path, node));
                    assert(root_reaches(table@, node));
                }
                return node;
            },
            Tree::Split { hp, above, below } => {
                let next: usize = if hp.point_is_above(es, emb) {
                    *above
                } else {
                    *below
                };
                proof {
                    let pre = path;
                    path = path.push(node);
                    assert(path.drop_last() =~= pre);
                    assert(path.last() == node);
                    assert(steps_to(table@, node as int, next as int));
                }
                node = next;
            },
        }
    }
}

/// The split indices a query's descent visits, root first, the reached leaf
/// not included.
pub(crate) fn tree_leaf_path<S: EmbeddingStore>(table: &Vec<Tree>, es: &S, emb: &Vec<u32>) -> (r:
    Vec<usize>)
    requires
        wf_arena(table@),
        table@.len() >= 1,
    ensures
        descends_to_leaf(table@, r@),
        r@.len() + 1 <= depth_of(table@, table@.len() - 1),
{
    let mut path: Vec<usize> = Vec::new();
    let mut node: usize = table.len() - 1;
    loop
        invariant
            wf_arena(table@),
            table@.len() >= 1,
            node < table@.len(),
            chain_to(table@, path@, node),
        decreases node,
    {
        proof {
            assert(wf_node(table@, node as int));
        }
        match &table[node] {
            Tree::Leaf { .. } => {
                proof {
                    lemma_chain_depth(table@, path@, node);
                    assert(chain_to(table@, path@, node) && node < table@.len() && (
                    table@[node as int] is Leaf));
                }
                return path;
            },
            Tree::Split { hp, above, below } => {
                let next: usize = if hp.point_is_above(es, emb) {
                    *above
                } else {
                    *below
                };
                let ghost pre = path@;
                path.push(node);
                proof {
                    assert(path@.drop_last() =~= pre);
                    assert(path@.last() == node);
                    assert(steps_to(table@, node as int, next as int));
                }
                node = next;
            },
        }
    }
}

} // verus!
