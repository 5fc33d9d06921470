use vstd::prelude::*;

verus! {

// The library carries every 32-bit IEEE-754 scalar as its bit pattern, a
// plain `u32`.  It never does arithmetic on the value itself -- the store
// trait owns that -- but classification and ordering of bit patterns are
// fixed exactly by the format, so they are implemented and proved here.
//
// Layout of a bit pattern `b`:
//   sign        `b >= 0x8000_0000`
//   magnitude   `b` with the sign bit cleared
//   NaN         magnitude above `0x7F80_0000` (the infinity pattern)

pub const SIGN_MASK: u32 = 0x8000_0000;
pub const INF_MAGNITUDE: u32 = 0x7F80_0000;

/// The bit pattern with the sign bit cleared; for a non-NaN value this is
/// the pattern of its absolute value.
pub open spec fn magnitude(b: u32) -> u32 {
    if b >= SIGN_MASK {
        (b - SIGN_MASK) as u32
    } else {
        b
    }
}

/// Whether the sign bit is set.
pub open spec fn sign_is_set(b: u32) -> bool {
    b >= SIGN_MASK
}

/// Whether the pattern encodes a NaN.
pub open spec fn is_nan(b: u32) -> bool {
    magnitude(b) > INF_MAGNITUDE
}

/// The numeric rank of a non-NaN pattern: two patterns compare, as the
/// encoded values do, by this signed magnitude.  The two zero patterns both
/// rank 0, as the format equates them.
pub open spec fn num_val(b: u32) -> int {
    if sign_is_set(b) {
        -(magnitude(b) as int)
    } else {
        magnitude(b) as int
    }
}

/// The encoded value is greater or equal to zero.  False on NaN; true on the
/// negative zero pattern.
pub open spec fn val_ge_zero(b: u32) -> bool {
    !is_nan(b) && num_val(b) >= 0
}

/// The encoded value of `a` is strictly greater than that of `b`.  False
/// whenever either is NaN.
pub open spec fn val_gt(a: u32, b: u32) -> bool {
    !is_nan(a) && !is_nan(b) && num_val(a) > num_val(b)
}

/// The rank of a pattern in the standard total order on 32-bit patterns
/// (negative values reversed below the positive ones): patterns order by
/// `total_key` exactly as a sign-magnitude flip orders them.  Distances and
/// traversal priorities are compared by this key.
pub open spec fn total_key(b: u32) -> u32 {
    if b >= SIGN_MASK {
        (0xFFFF_FFFFu32 - b) as u32
    } else {
        (b + SIGN_MASK) as u32
    }
}

/// Distinct patterns keep distinct keys, so key order is a total order on
/// patterns with no collisions.
pub proof fn lemma_total_key_injective(a: u32, b: u32)
    ensures
        total_key(a) == total_key(b) ==> a == b,
{
}

/// Clears the sign bit, as the absolute-value operation on encodings does.
pub fn abs_bits(b: u32) -> (r: u32)
    ensures
        r == magnitude(b),
{
    if b >= SIGN_MASK {
        b - SIGN_MASK
    } else {
        b
    }
}

/// The pattern with its sign bit flipped, as negation acts on encodings.
pub open spec fn flipped_sign(b: u32) -> u32 {
    if b >= SIGN_MASK {
        (b - SIGN_MASK) as u32
    } else {
        (b + SIGN_MASK) as u32
    }
}

/// Flips the sign bit: the encoding of the negated value.
pub fn neg_bits(b: u32) -> (r: u32)
    ensures
        r == flipped_sign(b),
{
    if b >= SIGN_MASK {
        b - SIGN_MASK
    } else {
        b + SIGN_MASK
    }
}

/// The total-order rank of a pattern.
pub fn key_of(b: u32) -> (r: u32)
    ensures
        r == total_key(b),
{
    if b >= SIGN_MASK {
        0xFFFF_FFFFu32 - b
    } else {
        b + SIGN_MASK
    }
}

/// Whether the encoded value is greater or equal to zero.
pub fn ge_zero(b: u32) -> (r: bool)
    ensures
        r == val_ge_zero(b),
{
    let mag: u32 = abs_bits(b);
    if mag > INF_MAGNITUDE {
        false
    } else {
        b < SIGN_MASK || mag == 0
    }
}

/// Whether the value of `a` is strictly greater than the value of `b`.
pub fn gt_bits(a: u32, b: u32) -> (r: bool)
    ensures
        r == val_gt(a, b),
{
    let ma: u32 = abs_bits(a);
    let mb: u32 = abs_bits(b);
    if ma > INF_MAGNITUDE || mb > INF_MAGNITUDE {
        return false;
    }
    if a < SIGN_MASK {
        // a is non-negative: greater unless b is non-negative and at least as big
        if b < SIGN_MASK {
            ma > mb
        } else {
            ma > 0 || mb > 0
        }
    } else {
        // a is negative: greater only when b is more negative
        b >= SIGN_MASK && mb > ma
    }
}

// --- Order on (distance pattern, identifier) pairs ---------------------

/// Strict order on (distance, id) pairs: by the distance pattern's total
/// key, ties by ascending id.
pub open spec fn pair_lt(a: (u32, usize), b: (u32, usize)) -> bool {
    total_key(a.0) < total_key(b.0) || (total_key(a.0) == total_key(b.0) && a.1 < b.1)
}

/// Non-strict form of `pair_lt`.
pub open spec fn pair_le(a: (u32, usize), b: (u32, usize)) -> bool {
    pair_lt(a, b) || a == b
}

pub proof fn lemma_pair_order_total(a: (u32, usize), b: (u32, usize))
    ensures
        pair_le(a, b) || pair_le(b, a),
        pair_le(a, b) && pair_le(b, a) ==> a == b,
{
    lemma_total_key_injective(a.0, b.0);
}

/// Decides `pair_lt` on two (distance, id) pairs.
pub fn pair_lt_exec(a: (u32, usize), b: (u32, usize)) -> (r: bool)
    ensures
        r == pair_lt(a, b),
{
    let ka: u32 = key_of(a.0);
    let kb: u32 = key_of(b.0);
    ka < kb || (ka == kb && a.1 < b.1)
}

} // verus!
