//! Ray parameters as IEEE-754 binary64 bit patterns.
//!
//! A ray parameter `t` is kept as the 64 bits of a double: one sign bit and
//! a 63-bit magnitude. The magnitude of the largest finite-or-infinite
//! value is [`INFINITY`]; anything above it is not a number. On such
//! patterns every comparison the tracer needs is integer arithmetic, and
//! this module states each of them once.

use vstd::prelude::*;

verus! {

/// The sign bit of a pattern.
pub const SIGN: u64 = 0x8000_0000_0000_0000;

/// The pattern of positive infinity, the largest magnitude that is a number.
pub const INFINITY: u64 = 0x7FF0_0000_0000_0000;

/// The pattern with its sign bit cleared.
pub open spec fn magnitude(bits: u64) -> int {
    if bits < SIGN {
        bits as int
    } else {
        bits - SIGN
    }
}

/// True unless the pattern is a NaN.
pub open spec fn is_number(bits: u64) -> bool {
    magnitude(bits) <= INFINITY
}

/// True for the numbers that are strictly greater than zero.
pub open spec fn positive(bits: u64) -> bool {
    0 < bits <= INFINITY
}

/// The place of a pattern in the total order on doubles: negative NaNs,
/// negative numbers from large to small, `-0`, `+0`, positive numbers from
/// small to large, positive NaNs.
pub open spec fn rank(bits: u64) -> int {
    if bits < SIGN {
        bits as int
    } else {
        -1 - (bits - SIGN)
    }
}

/// Numeric equality: both are numbers and denote the same value, the two
/// zeros being one value.
pub open spec fn equal(a: u64, b: u64) -> bool {
    &&& is_number(a)
    &&& is_number(b)
    &&& (a == b || (magnitude(a) == 0 && magnitude(b) == 0))
}

/// Numeric strict order: both are numbers and `a` denotes a smaller value
/// than `b`.
pub open spec fn less(a: u64, b: u64) -> bool {
    &&& is_number(a)
    &&& is_number(b)
    &&& rank(a) < rank(b)
    &&& !(magnitude(a) == 0 && magnitude(b) == 0)
}

fn magnitude_of(bits: u64) -> (m: u64)
    ensures
        m == magnitude(bits),
{
    if bits < SIGN {
        bits
    } else {
        bits - SIGN
    }
}

/// Whether `bits` is a number strictly greater than zero.
pub fn is_positive(bits: u64) -> (r: bool)
    ensures
        r == positive(bits),
{
    0 < bits && bits <= INFINITY
}

/// The rank of `bits` in the total order.
pub fn total_rank(bits: u64) -> (r: i64)
    ensures
        r == rank(bits),
{
    if bits < SIGN {
        bits as i64
    } else {
        -1 - ((bits - SIGN) as i64)
    }
}

/// Whether `a` and `b` are the same number.
pub fn is_equal(a: u64, b: u64) -> (r: bool)
    ensures
        r == equal(a, b),
{
    let ma: u64 = magnitude_of(a);
    let mb: u64 = magnitude_of(b);
    ma <= INFINITY && mb <= INFINITY && (a == b || (ma == 0 && mb == 0))
}

/// Whether `a` is a smaller number than `b`.
pub fn is_less(a: u64, b: u64) -> (r: bool)
    ensures
        r == less(a, b),
{
    let ma: u64 = magnitude_of(a);
    let mb: u64 = magnitude_of(b);
    ma <= INFINITY && mb <= INFINITY && total_rank(a) < total_rank(b) && !(ma == 0 && mb == 0)
}

/// Distinct patterns have distinct ranks: the total order has no ties.
pub proof fn lemma_rank_injective(a: u64, b: u64)
    ensures
        rank(a) == rank(b) <==> a == b,
{
}

/// Among positive numbers the numeric order, the total order and the
/// order of the patterns as integers are one and the same.
pub proof fn lemma_positive_order(a: u64, b: u64)
    requires
        positive(a),
        positive(b),
    ensures
        less(a, b) <==> a < b,
        rank(a) < rank(b) <==> a < b,
        equal(a, b) <==> a == b,
{
}

/// On numbers the total order refines the numeric order: a smaller number
/// never ranks above a larger one, and equal numbers differ in rank only
/// when they are the two zeros.
pub proof fn lemma_rank_refines_less(a: u64, b: u64)
    requires
        is_number(a),
        is_number(b),
    ensures
        less(a, b) ==> rank(a) < rank(b),
        rank(a) < rank(b) ==> less(a, b) || equal(a, b),
        less(a, b) || less(b, a) || equal(a, b),
{
}

} // verus!
