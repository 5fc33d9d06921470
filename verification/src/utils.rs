use vstd::prelude::*;
use rand_xorshift::XorShiftRng;
use crate::rng::rand_below;

verus! {

/// The length of the run of equal values that starts at position `i`.
pub open spec fn run_length(s: Seq<usize>, i: int) -> nat
    decreases s.len() - i when 0 <= i < s.len()
{
    if 0 <= i && i + 1 < s.len() && s[i + 1] == s[i] {
        1 + run_length(s, i + 1)
    } else {
        1
    }
}

/// Inside the run starting at `start` and ending before `e`, every value
/// equals the first, and the run seen from position `j` reaches exactly to
/// `e`.
pub proof fn lemma_run_exact(s: Seq<usize>, start: int, e: int)
    requires
        0 <= start < e <= s.len(),
        forall|m: int| start <= m < e ==> s[m] == s[start],
        e == s.len() || s[e as int] != s[start],
    ensures
        forall|j: int| start <= j < e ==> run_length(s, j) == e - j,
    decreases e - start,
{
    if start + 1 < e {
        assert(s[start + 1] == s[start]);
        lemma_run_exact(s, start + 1, e);
        assert(run_length(s, start) == 1 + run_length(s, start + 1));
    } else {
        assert(run_length(s, start) == 1);
    }
}

/// Walks a slice and yields each run of equal values once, as the value and
/// the run's length, in order.
pub struct Counter<'a> {
    slice: &'a [usize],
    idx: usize,
}

impl<'a> Counter<'a> {
    /// The values being counted.
    pub closed spec fn values(&self) -> Seq<usize> {
        self.slice@
    }

    /// The cursor: the start of the next unread run.
    pub closed spec fn pos(&self) -> nat {
        self.idx as nat
    }

    pub closed spec fn wf(&self) -> bool {
        self.idx <= self.slice@.len()
    }

    /// What the counter's well-formedness gives its callers: the cursor
    /// never passes the end.
    pub proof fn lemma_wf_facts(&self)
        requires
            self.wf(),
        ensures
            self.pos() <= self.values().len(),
    {
    }

    pub fn new(slice: &'a [usize]) -> (r: Counter<'a>)
        ensures
            r.wf(),
            r.values() == slice@,
            r.pos() == 0,
    {
        Counter { slice, idx: 0 }
    }

    /// The next run as (value, length), or `None` when the slice is spent.
    /// The cursor moves past the returned run.
    pub fn next(&mut self) -> (r: Option<(usize, usize)>)
        requires
            old(self).wf(),
        ensures
            final(self).wf(),
            final(self).values() == old(self).values(),
            old(self).pos() == old(self).values().len() ==> r is None && final(self).pos() == old(
                self,
            ).pos(),
            old(self).pos() < old(self).values().len() ==> {
                let s = old(self).values();
                let start = old(self).pos() as int;
                &&& r == Some((s[start], run_length(s, start) as usize))
                &&& final(self).pos() == start + run_length(s, start)
                &&& (forall|m: int| start <= m < final(self).pos() ==> s[m] == s[start])
                &&& (final(self).pos() == s.len() || s[final(self).pos() as int] != s[start])
            },
    {
        let ghost s = self.slice@;
        let start: usize = self.idx;
        let n: usize = self.slice.len();
        if start == n {
            return None;
        }
        let v: usize = self.slice[start];
        let mut count: usize = 0;
        while self.idx < n && self.slice[self.idx] == v
            invariant
                self.slice@ == s,
                n == s.len(),
                start <= self.idx <= n,
                count == self.idx - start,
                s[start as int] == v,
                forall|m: int| start <= m < self.idx ==> s[m] == v,
            decreases n - self.idx,
        {
            self.idx = self.idx + 1;
            count = count + 1;
        }
        proof {
            lemma_run_exact(s, start as int, self.idx as int);
        }
        Some((v, count))
    }
}

/// Relies on ahash::AHasher under its default fixed keys: hashes the pair
/// and returns the finished word.  The keys are generated once per process,
/// so nothing is claimed of the value.
#[verifier::external_body]
fn hash_pair(feat: usize, hash_num: usize) -> u64 {
    let mut s = ahash::AHasher::default();
    std::hash::Hash::hash(&(feat, hash_num), &mut s);
    std::hash::Hasher::finish(&s)
}

/// The sign and slot a hash word selects: the word's low bit picks the
/// sign, the remaining bits pick a slot below `dims`.
pub fn sign_index_of(hash: u64, dims: usize) -> (r: (i8, usize))
    requires
        dims >= 1,
    ensures
        r.0 == if (hash as usize) % 2 == 1 {
            1int
        } else {
            -1int
        },
        r.1 == ((hash as usize) / 2) % dims,
        r.1 < dims,
{
    let h: usize = hash as usize;
    let sign: i8 = if h % 2 == 1 {
        1
    } else {
        -1
    };
    (sign, (h / 2) % dims)
}

/// Projects features onto a fixed number of signed slots by hashing.
pub struct FeatureHasher {
    dims: usize,
}

impl FeatureHasher {
    /// The number of slots.
    pub closed spec fn spec_dims(&self) -> nat {
        self.dims as nat
    }

    pub fn new(dims: usize) -> (r: FeatureHasher)
        requires
            dims >= 1,
        ensures
            r.spec_dims() == dims,
    {
        FeatureHasher { dims }
    }

    /// The signed slot the given feature hashes to under probe `hash_num`:
    /// a sign of -1 or 1 and a slot below the hasher's width, both read off
    /// the drawn hash word by `sign_index_of`.
    pub fn hash(&self, feature: usize, hash_num: usize) -> (r: (i8, usize))
        requires
            self.spec_dims() >= 1,
        ensures
            r.0 == 1int || r.0 == -1int,
            r.1 < self.spec_dims(),
    {
        let word: u64 = hash_pair(feature, hash_num);
        sign_index_of(word, self.dims)
    }
}

/// Some position of the slice holds `v` and starts a run of length `best`.
pub open spec fn run_witness(s: Seq<usize>, v: usize, best: nat) -> bool {
    exists|i: int| 0 <= i < s.len() && #[trigger] s[i] == v && run_length(s, i) == best
}

/// The value of a longest run of the slice; when several runs tie for the
/// longest, one of their values, drawn at random.
pub fn get_best_count(counts: &[usize], rng: &mut XorShiftRng) -> (r: usize)
    requires
        counts@.len() > 0,
    ensures
        exists|i: int|
            0 <= i < counts@.len() && counts@[i] == r && (forall|j: int|
                0 <= j < counts@.len() ==> run_length(counts@, j) <= run_length(counts@, i)),
{
    let ghost s = counts@;
    let mut best_count: usize = 0;
    let mut ties: Vec<usize> = Vec::new();
    let mut counter = Counter::new(counts);
    loop
        invariant
            counter.wf(),
            counter.values() == s,
            s.len() > 0,
            counter.pos() <= s.len(),
            best_count <= s.len(),
            forall|j: int| 0 <= j < counter.pos() ==> run_length(s, j) <= best_count,
            counter.pos() > 0 ==> ties@.len() > 0,
            counter.pos() == 0 ==> best_count == 0,
            forall|m: int| 0 <= m < ties@.len() ==> run_witness(s, #[trigger] ties@[m], best_count as nat),
        ensures
            counter.pos() == s.len(),
            ties@.len() > 0,
            forall|j: int| 0 <= j < s.len() ==> run_length(s, j) <= best_count,
            forall|m: int| 0 <= m < ties@.len() ==> run_witness(s, #[trigger] ties@[m], best_count as nat),
        decreases s.len() - counter.pos(),
    {
        let ghost start = counter.pos() as int;
        let step = counter.next();
        match step {
            None => {
                break ;
            },
            Some((cluster, count)) => {
                proof {
                    lemma_run_exact(s, start, counter.pos() as int);
                    assert(count == run_length(s, start));
                    assert(run_length(s, start) <= s.len() - start);
                    assert forall|j: int| 0 <= j < counter.pos() implies run_length(s, j) <= (
                    if count >= best_count {
                        count
                    } else {
                        best_count
                    }) by {
                        if j >= start {
                            assert(run_length(s, j) == counter.pos() - j);
                        }
                    }
                }
                if count > best_count {
                    best_count = count;
                    ties.clear();
                    ties.push(cluster);
                    proof {
                        assert(s[start] == cluster && run_length(s, start) == best_count);
                        assert(run_witness(s, cluster, best_count as nat));
                    }
                } else if count == best_count {
                    let ghost pre = ties@;
                    ties.push(cluster);
                    proof {
                        assert(s[start] == cluster && run_length(s, start) == best_count);
                        assert(run_witness(s, cluster, best_count as nat));
                        assert forall|m: int| 0 <= m < ties@.len() implies run_witness(
                            s,
                            #[trigger] ties@[m],
                            best_count as nat,
                        ) by {
                            if m < pre.len() {
                                assert(ties@[m] == pre[m]);
                            }
                        }
                    }
                }
            },
        }
    }
    let pick: usize = if ties.len() > 1 {
        let idx: usize = rand_below(rng, ties.len());
        ties[idx]
    } else {
        ties[0]
    };
    proof {
        assert(ties@.contains(pick)) by {
            assert(exists|m: int| 0 <= m < ties@.len() && ties@[m] == pick);
        }
        let m = choose|m: int| 0 <= m < ties@.len() && ties@[m] == pick;
        assert(run_witness(s, ties@[m], best_count as nat));
        let i = choose|i: int|
            0 <= i < s.len() && #[trigger] s[i] == ties@[m] && run_length(s, i) == best_count;
        assert(s[i] == pick && (forall|j: int| 0 <= j < s.len() ==> run_length(s, j) <= run_length(
            s,
            i,
        )));
    }
    pick
}

} // verus!
