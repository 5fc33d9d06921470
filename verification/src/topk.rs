use vstd::prelude::*;
use vstd::seq_lib::*;
use crate::NodeID;
use crate::bits::{pair_lt, pair_le, total_key, pair_lt_exec, key_of};

verus! {

/// A distance paired with the entity it was measured to; lower distance
/// means more similar.  The distance is an opaque 32-bit scalar pattern.
#[derive(Clone, Copy, Debug, PartialEq, Eq, Structural)]
pub struct DistanceFromEntity<A>(pub u32, pub A);

impl<A> DistanceFromEntity<A> {
    pub fn to_tup(&self) -> (r: (&A, u32))
        ensures
            r.1 == self.0,
            *r.0 == self.1,
    {
        (&self.1, self.0)
    }

    pub fn new(distance: u32, entity: A) -> (r: DistanceFromEntity<A>)
        ensures
            r == DistanceFromEntity(distance, entity),
    {
        DistanceFromEntity(distance, entity)
    }
}

impl<A: Copy> DistanceFromEntity<A> {
    pub fn to_tup_cloned(&self) -> (r: (A, u32))
        ensures
            r == (self.1, self.0),
    {
        (self.1, self.0)
    }
}

pub type NodeDistance = DistanceFromEntity<NodeID>;

/// The (distance pattern, id) pair an entry orders by.
pub open spec fn nd_pair(nd: NodeDistance) -> (u32, NodeID) {
    (nd.0, nd.1)
}

/// Ascending by distance pattern, ties by ascending id.
pub open spec fn sorted_nds(s: Seq<NodeDistance>) -> bool {
    forall|i: int, j: int|
        0 <= i < j < s.len() ==> pair_le(nd_pair(#[trigger] s[i]), nd_pair(#[trigger] s[j]))
}

/// The sorted sequence with one entry placed at its ordered position; an
/// entry that ties goes after the ones already held.
pub open spec fn insert_sorted(s: Seq<NodeDistance>, nd: NodeDistance) -> Seq<NodeDistance>
    decreases s.len(),
{
    if s.len() == 0 {
        seq![nd]
    } else if pair_lt(nd_pair(nd), nd_pair(s[0])) {
        seq![nd] + s
    } else {
        seq![s[0]] + insert_sorted(s.drop_first(), nd)
    }
}

/// What one `push` leaves in a collector of capacity `k` that holds the
/// sorted entries `s`: the entry enters while there is room, or by evicting
/// the largest held (distance, id) pair when its distance is strictly below
/// the largest held distance; a tie with the held maximum keeps the earlier
/// entries.
pub open spec fn push_model(s: Seq<NodeDistance>, k: nat, nd: NodeDistance) -> Seq<NodeDistance> {
    if s.len() < k {
        insert_sorted(s, nd)
    } else if k > 0 && total_key(nd.0) < total_key(s.last().0) {
        insert_sorted(s.drop_last(), nd)
    } else {
        s
    }
}

/// The result of pushing every entry of `adds`, in order, into a collector
/// of capacity `k` holding `s`.
pub open spec fn push_fold(s: Seq<NodeDistance>, k: nat, adds: Seq<NodeDistance>) -> Seq<
    NodeDistance,
>
    decreases adds.len(),
{
    if adds.len() == 0 {
        s
    } else {
        push_fold(push_model(s, k, adds[0]), k, adds.drop_first())
    }
}

pub proof fn lemma_insert_sorted_len(s: Seq<NodeDistance>, nd: NodeDistance)
    ensures
        insert_sorted(s, nd).len() == s.len() + 1,
    decreases s.len(),
{
    if s.len() != 0 && !pair_lt(nd_pair(nd), nd_pair(s[0])) {
        lemma_insert_sorted_len(s.drop_first(), nd);
    }
}

pub proof fn lemma_insert_sorted_multiset(s: Seq<NodeDistance>, nd: NodeDistance)
    ensures
        insert_sorted(s, nd).to_multiset() == s.to_multiset().insert(nd),
    decreases s.len(),
{
    broadcast use group_to_multiset_ensures;

    if s.len() == 0 {
        assert(seq![nd] =~= Seq::<NodeDistance>::empty().push(nd));
        assert(insert_sorted(s, nd).to_multiset() =~= s.to_multiset().insert(nd));
    } else if pair_lt(nd_pair(nd), nd_pair(s[0])) {
        lemma_multiset_commutative(seq![nd], s);
        assert(seq![nd] =~= Seq::<NodeDistance>::empty().push(nd));
        assert((seq![nd] + s).to_multiset() =~= s.to_multiset().insert(nd));
    } else {
        lemma_insert_sorted_multiset(s.drop_first(), nd);
        lemma_multiset_commutative(seq![s[0]], insert_sorted(s.drop_first(), nd));
        assert(seq![s[0]] =~= Seq::<NodeDistance>::empty().push(s[0]));
        assert(seq![s[0]] + s.drop_first() =~= s);
        lemma_multiset_commutative(seq![s[0]], s.drop_first());
        assert((seq![s[0]] + insert_sorted(s.drop_first(), nd)).to_multiset()
            =~= s.to_multiset().insert(nd));
    }
}

/// Every entry of the enlarged sequence is an old entry or the new one.
pub proof fn lemma_insert_sorted_contains(s: Seq<NodeDistance>, nd: NodeDistance, x: NodeDistance)
    ensures
        insert_sorted(s, nd).contains(x) ==> s.contains(x) || x == nd,
    decreases s.len(),
{
    if s.len() != 0 && !pair_lt(nd_pair(nd), nd_pair(s[0])) {
        lemma_insert_sorted_contains(s.drop_first(), nd, x);
        if insert_sorted(s, nd).contains(x) && x != s[0] {
            let t = insert_sorted(s.drop_first(), nd);
            let i = choose|i: int| 0 <= i < insert_sorted(s, nd).len() && insert_sorted(s, nd)[i] == x;
            assert(i >= 1 && t[i - 1] == x);
            assert(t.contains(x));
            if x != nd {
                let j = choose|j: int| 0 <= j < s.drop_first().len() && s.drop_first()[j] == x;
                assert(s[j + 1] == x);
            }
        }
    }
}

pub proof fn lemma_insert_sorted_sorted(s: Seq<NodeDistance>, nd: NodeDistance)
    requires
        sorted_nds(s),
    ensures
        sorted_nds(insert_sorted(s, nd)),
    decreases s.len(),
{
    if s.len() == 0 {
    } else if pair_lt(nd_pair(nd), nd_pair(s[0])) {
        let r = seq![nd] + s;
        assert forall|i: int, j: int| 0 <= i < j < r.len() implies pair_le(
            nd_pair(#[trigger] r[i]),
            nd_pair(#[trigger] r[j]),
        ) by {
            if i == 0 {
                assert(r[j] == s[j - 1]);
                if j > 1 {
                    assert(pair_le(nd_pair(s[0]), nd_pair(s[j - 1])));
                }
            } else {
                assert(r[i] == s[i - 1] && r[j] == s[j - 1]);
            }
        }
    } else {
        let rest = s.drop_first();
        assert forall|i: int, j: int| 0 <= i < j < rest.len() implies pair_le(
            nd_pair(#[trigger] rest[i]),
            nd_pair(#[trigger] rest[j]),
        ) by {
            assert(rest[i] == s[i + 1] && rest[j] == s[j + 1]);
        }
        lemma_insert_sorted_sorted(rest, nd);
        let t = insert_sorted(rest, nd);
        let r = seq![s[0]] + t;
        assert forall|i: int, j: int| 0 <= i < j < r.len() implies pair_le(
            nd_pair(#[trigger] r[i]),
            nd_pair(#[trigger] r[j]),
        ) by {
            if i == 0 {
                let x = t[j - 1];
                assert(t.contains(x));
                lemma_insert_sorted_contains(rest, nd, x);
                if x == nd {
                } else {
                    let m = choose|m: int| 0 <= m < rest.len() && rest[m] == x;
                    assert(rest[m] == s[m + 1]);
                    assert(pair_le(nd_pair(s[0]), nd_pair(s[m + 1])));
                }
            } else {
                assert(r[i] == t[i - 1] && r[j] == t[j - 1]);
            }
        }
    }
}

/// One push keeps the collector sorted and within capacity.
pub proof fn lemma_push_model_inv(s: Seq<NodeDistance>, k: nat, nd: NodeDistance)
    requires
        sorted_nds(s),
        s.len() <= k,
    ensures
        sorted_nds(push_model(s, k, nd)),
        push_model(s, k, nd).len() <= k,
{
    if s.len() < k {
        lemma_insert_sorted_sorted(s, nd);
        lemma_insert_sorted_len(s, nd);
    } else if k > 0 && total_key(nd.0) < total_key(s.last().0) {
        let short = s.drop_last();
        assert(sorted_nds(short)) by {
            assert forall|i: int, j: int| 0 <= i < j < short.len() implies pair_le(
                nd_pair(#[trigger] short[i]),
                nd_pair(#[trigger] short[j]),
            ) by {
                assert(short[i] == s[i] && short[j] == s[j]);
            }
        }
        lemma_insert_sorted_sorted(short, nd);
        lemma_insert_sorted_len(short, nd);
    }
}

/// One push grows the collector until it is full.
pub proof fn lemma_push_model_len(s: Seq<NodeDistance>, k: nat, nd: NodeDistance)
    requires
        s.len() <= k,
    ensures
        push_model(s, k, nd).len() == if s.len() < k {
            s.len() + 1
        } else {
            k
        },
{
    if s.len() < k {
        lemma_insert_sorted_len(s, nd);
    } else if k > 0 && total_key(nd.0) < total_key(s.last().0) {
        lemma_insert_sorted_len(s.drop_last(), nd);
    }
}

/// A fold of pushes holds as many entries as were offered, up to capacity.
pub proof fn lemma_push_fold_len(s: Seq<NodeDistance>, k: nat, adds: Seq<NodeDistance>)
    requires
        s.len() <= k,
    ensures
        push_fold(s, k, adds).len() == if s.len() + adds.len() <= k {
            s.len() + adds.len()
        } else {
            k
        },
    decreases adds.len(),
{
    if adds.len() != 0 {
        lemma_push_model_len(s, k, adds[0]);
        lemma_push_fold_len(push_model(s, k, adds[0]), k, adds.drop_first());
    }
}

/// Every entry after a push was held before or is the pushed one.
pub proof fn lemma_push_model_contains(s: Seq<NodeDistance>, k: nat, nd: NodeDistance, x: NodeDistance)
    ensures
        push_model(s, k, nd).contains(x) ==> s.contains(x) || x == nd,
{
    if s.len() < k {
        lemma_insert_sorted_contains(s, nd, x);
    } else if k > 0 && total_key(nd.0) < total_key(s.last().0) {
        lemma_insert_sorted_contains(s.drop_last(), nd, x);
        if s.drop_last().contains(x) {
            let m = choose|m: int| 0 <= m < s.drop_last().len() && s.drop_last()[m] == x;
            assert(s[m] == x);
        }
    }
}

/// Where an insertion puts its largest entry: the new entry if nothing held
/// ranks after it, else the old largest.
proof fn lemma_insert_sorted_last(s: Seq<NodeDistance>, nd: NodeDistance)
    requires
        sorted_nds(s),
    ensures
        insert_sorted(s, nd).last() == if s.len() == 0 || pair_le(nd_pair(s.last()), nd_pair(nd)) {
            nd
        } else {
            s.last()
        },
    decreases s.len(),
{
    lemma_insert_sorted_len(s, nd);
    if s.len() == 0 {
    } else if pair_lt(nd_pair(nd), nd_pair(s[0])) {
        assert((seq![nd] + s).last() == s.last());
        crate::bits::lemma_pair_order_total(nd_pair(s.last()), nd_pair(nd));
        if s.len() > 1 {
            assert(pair_le(nd_pair(s[0]), nd_pair(s.last())));
        }
    } else {
        let rest = s.drop_first();
        assert forall|i: int, j: int| 0 <= i < j < rest.len() implies pair_le(
            nd_pair(#[trigger] rest[i]),
            nd_pair(#[trigger] rest[j]),
        ) by {
            assert(rest[i] == s[i + 1] && rest[j] == s[j + 1]);
        }
        lemma_insert_sorted_last(rest, nd);
        lemma_insert_sorted_len(rest, nd);
        let t = insert_sorted(rest, nd);
        assert((seq![s[0]] + t).last() == t.last());
        if rest.len() == 0 {
            crate::bits::lemma_pair_order_total(nd_pair(s[0]), nd_pair(nd));
            assert(s.last() == s[0]);
        } else {
            assert(rest.last() == s.last());
        }
    }
}

/// An entry already held survives an insertion.
proof fn lemma_insert_sorted_keeps(s: Seq<NodeDistance>, nd: NodeDistance, x: NodeDistance)
    requires
        s.contains(x),
    ensures
        insert_sorted(s, nd).contains(x),
{
    broadcast use group_to_multiset_ensures;

    lemma_insert_sorted_multiset(s, nd);
    assert(s.to_multiset().count(x) > 0);
    assert(insert_sorted(s, nd).to_multiset().count(x) > 0);
}

/// Whether the collector reckons with an entry: it holds it, or it is full
/// and its largest distance ranks no better than the entry's.
pub open spec fn accounts_for(s: Seq<NodeDistance>, k: nat, e: NodeDistance) -> bool {
    s.contains(e) || (s.len() == k && k > 0 && total_key(s.last().0) <= total_key(e.0))
}

/// One push reckons with the entry it was offered.
pub proof fn lemma_push_model_new(s: Seq<NodeDistance>, k: nat, nd: NodeDistance)
    requires
        sorted_nds(s),
        s.len() <= k,
        k > 0,
    ensures
        accounts_for(push_model(s, k, nd), k, nd),
{
    broadcast use group_to_multiset_ensures;

    lemma_push_model_inv(s, k, nd);
    if s.len() < k {
        lemma_insert_sorted_multiset(s, nd);
        assert(insert_sorted(s, nd).to_multiset().count(nd) > 0);
    } else if total_key(nd.0) < total_key(s.last().0) {
        lemma_insert_sorted_multiset(s.drop_last(), nd);
        assert(insert_sorted(s.drop_last(), nd).to_multiset().count(nd) > 0);
    } else {
        lemma_push_model_len(s, k, nd);
    }
}

/// One push keeps reckoning with every entry reckoned with before.
pub proof fn lemma_push_model_bound(s: Seq<NodeDistance>, k: nat, nd: NodeDistance, e: NodeDistance)
    requires
        sorted_nds(s),
        s.len() <= k,
        k > 0,
        accounts_for(s, k, e),
    ensures
        accounts_for(push_model(s, k, nd), k, e),
{
    lemma_push_model_inv(s, k, nd);
    lemma_push_model_len(s, k, nd);
    if s.contains(e) {
        if s.len() < k {
            lemma_insert_sorted_keeps(s, nd, e);
        } else if total_key(nd.0) < total_key(s.last().0) {
            let short = s.drop_last();
            assert forall|i: int, j: int| 0 <= i < j < short.len() implies pair_le(
                nd_pair(#[trigger] short[i]),
                nd_pair(#[trigger] short[j]),
            ) by {
                assert(short[i] == s[i] && short[j] == s[j]);
            }
            let i = choose|i: int| 0 <= i < s.len() && s[i] == e;
            if i < s.len() - 1 {
                assert(short[i] == e);
                assert(short.contains(e));
                lemma_insert_sorted_keeps(short, nd, e);
            } else {
                // the entry was the evicted largest: nothing held now ranks
                // after it
                assert(e == s.last());
                lemma_insert_sorted_last(short, nd);
                let t = insert_sorted(short, nd);
                if short.len() == 0 || pair_le(nd_pair(short.last()), nd_pair(nd)) {
                    assert(t.last() == nd);
                } else {
                    assert(t.last() == short.last());
                    assert(pair_le(nd_pair(short.last()), nd_pair(s.last())));
                }
            }
        }
    } else {
        // the collector was full and its largest already ranked no better
        if total_key(nd.0) < total_key(s.last().0) {
            let short = s.drop_last();
            lemma_insert_sorted_last(short, nd);
            let t = insert_sorted(short, nd);
            if short.len() == 0 || pair_le(nd_pair(short.last()), nd_pair(nd)) {
                assert(t.last() == nd);
            } else {
                assert(t.last() == short.last());
                assert(pair_le(nd_pair(short.last()), nd_pair(s.last())));
            }
        }
    }
}

/// A fold of pushes keeps reckoning with every entry reckoned with before.
pub proof fn lemma_push_fold_preserves_bound(
    s: Seq<NodeDistance>,
    k: nat,
    adds: Seq<NodeDistance>,
    e: NodeDistance,
)
    requires
        sorted_nds(s),
        s.len() <= k,
        k > 0,
        accounts_for(s, k, e),
    ensures
        accounts_for(push_fold(s, k, adds), k, e),
    decreases adds.len(),
{
    if adds.len() != 0 {
        lemma_push_model_inv(s, k, adds[0]);
        lemma_push_model_bound(s, k, adds[0], e);
        lemma_push_fold_preserves_bound(push_model(s, k, adds[0]), k, adds.drop_first(), e);
    }
}

/// What the collector owes everything it was offered: each offered entry is
/// held at the end, or the collector ends full with its largest distance
/// ranking no better than that entry's.
pub proof fn lemma_push_fold_bound(s: Seq<NodeDistance>, k: nat, adds: Seq<NodeDistance>)
    requires
        sorted_nds(s),
        s.len() <= k,
        k > 0,
    ensures
        forall|j: int| 0 <= j < adds.len() ==> accounts_for(push_fold(s, k, adds), k, #[trigger] adds[j]),
    decreases adds.len(),
{
    if adds.len() != 0 {
        let mid = push_model(s, k, adds[0]);
        lemma_push_model_inv(s, k, adds[0]);
        lemma_push_model_new(s, k, adds[0]);
        lemma_push_fold_preserves_bound(mid, k, adds.drop_first(), adds[0]);
        lemma_push_fold_bound(mid, k, adds.drop_first());
        assert forall|j: int| 0 <= j < adds.len() implies accounts_for(
            push_fold(s, k, adds),
            k,
            #[trigger] adds[j],
        ) by {
            if j >= 1 {
                assert(adds.drop_first()[j - 1] == adds[j]);
                assert(accounts_for(push_fold(mid, k, adds.drop_first()), k, adds[j]));
            }
        }
    }
}

/// Every entry after a fold of pushes was held before or was pushed.
pub proof fn lemma_push_fold_contains(
    s: Seq<NodeDistance>,
    k: nat,
    adds: Seq<NodeDistance>,
    x: NodeDistance,
)
    ensures
        push_fold(s, k, adds).contains(x) ==> s.contains(x) || adds.contains(x),
    decreases adds.len(),
{
    if adds.len() != 0 {
        lemma_push_fold_contains(push_model(s, k, adds[0]), k, adds.drop_first(), x);
        lemma_push_model_contains(s, k, adds[0], x);
        if adds.drop_first().contains(x) {
            let m = choose|m: int| 0 <= m < adds.drop_first().len() && adds.drop_first()[m] == x;
            assert(adds[m + 1] == x);
        }
        if x == adds[0] {
            assert(adds.contains(x));
        }
    }
}

/// A fold of pushes keeps the collector sorted and within capacity.
pub proof fn lemma_push_fold_inv(s: Seq<NodeDistance>, k: nat, adds: Seq<NodeDistance>)
    requires
        sorted_nds(s),
        s.len() <= k,
    ensures
        sorted_nds(push_fold(s, k, adds)),
        push_fold(s, k, adds).len() <= k,
    decreases adds.len(),
{
    if adds.len() != 0 {
        lemma_push_model_inv(s, k, adds[0]);
        lemma_push_fold_inv(push_model(s, k, adds[0]), k, adds.drop_first());
    }
}

pub proof fn lemma_push_fold_snoc(s: Seq<NodeDistance>, k: nat, adds: Seq<NodeDistance>, nd: NodeDistance)
    ensures
        push_fold(s, k, adds.push(nd)) == push_model(push_fold(s, k, adds), k, nd),
    decreases adds.len(),
{
    if adds.len() == 0 {
        assert(adds.push(nd).drop_first() =~= Seq::<NodeDistance>::empty());
        assert(push_fold(s, k, adds.push(nd)) == push_fold(push_model(s, k, nd), k, Seq::empty()));
    } else {
        assert(adds.push(nd)[0] == adds[0]);
        assert(adds.push(nd).drop_first() =~= adds.drop_first().push(nd));
        lemma_push_fold_snoc(push_model(s, k, adds[0]), k, adds.drop_first(), nd);
    }
}

/// Tracks the `k` entries with the lowest distances seen so far.
pub struct TopK {
    entries: Vec<NodeDistance>,
    k: usize,
}

impl TopK {
    /// The held entries, ascending by (distance pattern, id).
    pub closed spec fn contents(&self) -> Seq<NodeDistance> {
        self.entries@
    }

    /// The capacity the collector was made with.
    pub closed spec fn cap(&self) -> nat {
        self.k as nat
    }

    pub closed spec fn inv(&self) -> bool {
        sorted_nds(self.entries@) && self.entries@.len() <= self.k
    }

    /// What the collector's invariant gives its callers: the held entries
    /// are sorted and within capacity.
    pub proof fn lemma_inv_facts(&self)
        requires
            self.inv(),
        ensures
            sorted_nds(self.contents()),
            self.contents().len() <= self.cap(),
    {
    }

    pub fn new(k: usize) -> (r: TopK)
        ensures
            r.inv(),
            r.cap() == k,
            r.contents() == Seq::<NodeDistance>::empty(),
    {
        TopK { entries: Vec::new(), k }
    }

    /// Offers one (id, distance) entry to the collector.
    pub fn push(&mut self, node_id: NodeID, score: u32)
        requires
            old(self).inv(),
        ensures
            final(self).inv(),
            final(self).cap() == old(self).cap(),
            final(self).contents() == push_model(
                old(self).contents(),
                old(self).cap(),
                DistanceFromEntity(score, node_id),
            ),
    {
        let nd = DistanceFromEntity(score, node_id);
        proof {
            lemma_push_model_inv(self.entries@, self.k as nat, nd);
        }
        if self.entries.len() < self.k {
            insert_entry(&mut self.entries, nd);
        } else if self.k > 0 {
            let last: NodeDistance = self.entries[self.k - 1];
            if key_of(score) < key_of(last.0) {
                let ghost pre = self.entries@;
                self.entries.pop();
                proof {
                    assert(self.entries@ =~= pre.drop_last());
                }
                insert_entry(&mut self.entries, nd);
            }
        }
    }

    /// The held entries in ascending (distance, id) order.
    pub fn into_sorted(self) -> (r: Vec<NodeDistance>)
        ensures
            r@ == self.contents(),
    {
        let TopK { entries, k: _ } = self;
        entries
    }

    /// Pushes every entry of the other collector into this one, in the
    /// other's ascending order.
    pub fn extend(&mut self, other: TopK)
        requires
            old(self).inv(),
        ensures
            final(self).inv(),
            final(self).cap() == old(self).cap(),
            final(self).contents() == push_fold(
                old(self).contents(),
                old(self).cap(),
                other.contents(),
            ),
    {
        let TopK { entries, k: _ } = other;
        let ghost adds = entries@;
        let ghost s0 = self.contents();
        let ghost k0 = self.cap();
        let mut i: usize = 0;
        while i < entries.len()
            invariant
                i <= entries@.len(),
                entries@ == adds,
                self.inv(),
                self.cap() == k0,
                self.contents() == push_fold(s0, k0, adds.take(i as int)),
            decreases entries@.len() - i,
        {
            let e: NodeDistance = entries[i];
            proof {
                assert(adds.take(i as int).push(adds[i as int]) =~= adds.take(i as int + 1));
                lemma_push_fold_snoc(s0, k0, adds.take(i as int), adds[i as int]);
            }
            self.push(e.1, e.0);
            proof {
                assert(DistanceFromEntity(e.0, e.1) == e);
            }
            i = i + 1;
        }
        proof {
            assert(adds.take(adds.len() as int) =~= adds);
        }
    }

    pub fn len(&self) -> (r: usize)
        ensures
            r == self.contents().len(),
    {
        self.entries.len()
    }
}

/// Places one entry at its ordered position in a sorted vector.
fn insert_entry(entries: &mut Vec<NodeDistance>, nd: NodeDistance)
    requires
        sorted_nds(old(entries)@),
        old(entries)@.len() < usize::MAX,
    ensures
        final(entries)@ == insert_sorted(old(entries)@, nd),
{
    let ghost s0 = entries@;
    let mut i: usize = 0;
    while i < entries.len() && !pair_lt_exec((nd.0, nd.1), (entries[i].0, entries[i].1))
        invariant
            entries@ == s0,
            i <= entries@.len(),
            forall|j: int| 0 <= j < i ==> !pair_lt(nd_pair(nd), nd_pair(#[trigger] s0[j])),
        decreases entries@.len() - i,
    {
        i = i + 1;
    }
    proof {
        lemma_insert_sorted_at(s0, nd, i as int);
    }
    entries.insert(i, nd);
    proof {
        assert(entries@ =~= s0.insert(i as int, nd));
    }
}

/// Where the scan stops, the recursive placement and positional insertion
/// agree.
proof fn lemma_insert_sorted_at(s: Seq<NodeDistance>, nd: NodeDistance, i: int)
    requires
        0 <= i <= s.len(),
        forall|j: int| 0 <= j < i ==> !pair_lt(nd_pair(nd), nd_pair(#[trigger] s[j])),
        i < s.len() ==> pair_lt(nd_pair(nd), nd_pair(s[i])),
    ensures
        insert_sorted(s, nd) == s.insert(i, nd),
    decreases s.len(),
{
    if s.len() == 0 {
        assert(insert_sorted(s, nd) =~= s.insert(0, nd));
    } else if pair_lt(nd_pair(nd), nd_pair(s[0])) {
        assert(i == 0);
        assert(seq![nd] + s =~= s.insert(0, nd));
    } else {
        assert(i >= 1);
        let rest = s.drop_first();
        assert forall|j: int| 0 <= j < i - 1 implies !pair_lt(nd_pair(nd), nd_pair(#[trigger] rest[j])) by {
            assert(rest[j] == s[j + 1]);
        }
        assert(i - 1 < rest.len() ==> pair_lt(nd_pair(nd), nd_pair(rest[i - 1])));
        lemma_insert_sorted_at(rest, nd, i - 1);
        assert(seq![s[0]] + rest.insert(i - 1, nd) =~= s.insert(i, nd));
    }
}

} // verus!
