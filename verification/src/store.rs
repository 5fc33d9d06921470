use vstd::prelude::*;
use crate::NodeID;

verus! {

/// The embedding store, as the forest consumes it.
///
/// Embeddings are rows of opaque 32-bit scalars (IEEE-754 bit patterns held
/// as `u32`).  The store owns the meaning of a scalar: its arithmetic and
/// the distance metric both live behind this trait, and implementations are
/// supplied by the caller.  The forest itself never interprets a scalar
/// beyond the bit-level sign test and total order of `bits`.
pub trait EmbeddingStore {
    /// The number of embeddings held.
    fn len(&self) -> usize;

    /// The fixed dimension of every embedding.
    fn dims(&self) -> usize;

    /// The embedding stored under `id`.
    fn get_embedding(&self, id: NodeID) -> Vec<u32>;

    /// The metric's distance between two raw vectors; lower means more
    /// similar.
    fn distance(&self, a: &Vec<u32>, b: &Vec<u32>) -> u32;

    /// The metric's distance between the embedding stored under `id` and a
    /// raw query vector.
    fn distance_to_query(&self, id: NodeID, query: &Vec<u32>) -> u32;

    /// The sum of two scalars.
    fn scalar_add(&self, a: u32, b: u32) -> u32;

    /// The difference of two scalars.
    fn scalar_sub(&self, a: u32, b: u32) -> u32;

    /// The product of two scalars.
    fn scalar_mul(&self, a: u32, b: u32) -> u32;

    /// The quotient of two scalars.
    fn scalar_div(&self, a: u32, b: u32) -> u32;

    /// The scalar encoding the given count.
    fn scalar_of_usize(&self, n: usize) -> u32;
}

/// The dot product of two rows, folded left over the store's arithmetic
/// from the zero pattern, over the positions the rows share.
pub(crate) fn dot<S: EmbeddingStore>(es: &S, x: &Vec<u32>, y: &Vec<u32>) -> u32 {
    let n: usize = if x.len() <= y.len() {
        x.len()
    } else {
        y.len()
    };
    let mut acc: u32 = 0;
    let mut i: usize = 0;
    while i < n
        invariant
            n <= x@.len(),
            n <= y@.len(),
        decreases n - i,
    {
        acc = es.scalar_add(acc, es.scalar_mul(x[i], y[i]));
        i = i + 1;
    }
    acc
}

/// The elementwise difference of two rows, over the positions they share.
pub(crate) fn vec_sub<S: EmbeddingStore>(es: &S, x: &Vec<u32>, y: &Vec<u32>) -> (r: Vec<u32>)
    ensures
        r@.len() == if x@.len() <= y@.len() {
            x@.len()
        } else {
            y@.len()
        },
{
    let n: usize = if x.len() <= y.len() {
        x.len()
    } else {
        y.len()
    };
    let mut r: Vec<u32> = Vec::new();
    let mut i: usize = 0;
    while i < n
        invariant
            n <= x@.len(),
            n <= y@.len(),
            i <= n,
            r@.len() == i,
        decreases n - i,
    {
        r.push(es.scalar_sub(x[i], y[i]));
        i = i + 1;
    }
    r
}

/// Moves a centroid toward a point with weight 1/count: each coordinate
/// becomes `(count-1)/count` of itself plus `1/count` of the point's, over
/// the positions the rows share.  The centroid keeps its width.
pub(crate) fn update_point<S: EmbeddingStore>(
    es: &S,
    centroid: &mut Vec<u32>,
    point: &Vec<u32>,
    count: usize,
)
    requires
        count >= 1,
    ensures
        final(centroid)@.len() == old(centroid)@.len(),
{
    let n: usize = if centroid.len() <= point.len() {
        centroid.len()
    } else {
        point.len()
    };
    let one: u32 = es.scalar_of_usize(1);
    let ratio: u32 = es.scalar_div(es.scalar_of_usize(count - 1), es.scalar_of_usize(count));
    let keep_weight: u32 = es.scalar_sub(one, ratio);
    let mut i: usize = 0;
    while i < n
        invariant
            n <= centroid@.len(),
            n <= point@.len(),
            centroid@.len() == old(centroid)@.len(),
        decreases n - i,
    {
        let ci: u32 = centroid[i];
        centroid.set(i, es.scalar_add(es.scalar_mul(ratio, ci), es.scalar_mul(keep_weight, point[i])));
        i = i + 1;
    }
}

/// The bias of the plane through the midpoint of two points: the sum over
/// shared positions of `coef_i * (a_i + b_i) / 2` in the store's arithmetic.
pub(crate) fn plane_bias<S: EmbeddingStore>(es: &S, coef: &Vec<u32>, a: &Vec<u32>, b: &Vec<u32>) -> u32 {
    let mut n: usize = if coef.len() <= a.len() {
        coef.len()
    } else {
        a.len()
    };
    if b.len() < n {
        n = b.len();
    }
    let two: u32 = es.scalar_of_usize(2);
    let mut acc: u32 = 0;
    let mut i: usize = 0;
    while i < n
        invariant
            n <= coef@.len(),
            n <= a@.len(),
            n <= b@.len(),
        decreases n - i,
    {
        let term: u32 = es.scalar_div(es.scalar_mul(coef[i], es.scalar_add(a[i], b[i])), two);
        acc = es.scalar_add(acc, term);
        i = i + 1;
    }
    acc
}

} // verus!
