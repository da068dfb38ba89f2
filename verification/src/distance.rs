//! The squared Euclidean distance between two feature vectors.

use vstd::prelude::*;
use crate::error::ClassifyError;

verus! {

/// The sum of the squared component differences of the first `a.len()`
/// components of `a` and `b`. For vectors of equal length this is the square
/// of their Euclidean distance.
pub open spec fn spec_squared_distance(a: Seq<i32>, b: Seq<i32>) -> int
    decreases a.len(),
{
    if a.len() == 0 {
        0
    } else {
        spec_squared_distance(a.drop_last(), b.drop_last()) + (a.last() - b.last()) * (a.last()
            - b.last())
    }
}

/// The squared distance is never negative, whatever the two vectors hold.
pub proof fn lemma_squared_distance_nonnegative(a: Seq<i32>, b: Seq<i32>)
    ensures
        spec_squared_distance(a, b) >= 0,
    decreases a.len(),
{
    if a.len() > 0 {
        lemma_squared_distance_nonnegative(a.drop_last(), b.drop_last());
        let d: int = a.last() - b.last();
        assert(d * d >= 0) by (nonlinear_arith);
    }
}

/// The squared distance does not depend on the order of its arguments: a
/// vector is as far from another as the other is from it.
pub proof fn lemma_squared_distance_symmetric(a: Seq<i32>, b: Seq<i32>)
    requires
        a.len() == b.len(),
    ensures
        spec_squared_distance(a, b) == spec_squared_distance(b, a),
    decreases a.len(),
{
    if a.len() > 0 {
        lemma_squared_distance_symmetric(a.drop_last(), b.drop_last());
        let d: int = a.last() - b.last();
        let e: int = b.last() - a.last();
        assert(d * d == e * e) by (nonlinear_arith)
            requires
                e == -d,
        ;
    }
}

/// Every vector is at distance zero from itself.
pub proof fn lemma_squared_distance_identity(a: Seq<i32>)
    ensures
        spec_squared_distance(a, a) == 0,
    decreases a.len(),
{
    if a.len() > 0 {
        lemma_squared_distance_identity(a.drop_last());
    }
}

/// Two vectors of equal length are at distance zero exactly when they are
/// the same vector.
pub proof fn lemma_squared_distance_zero_iff_equal(a: Seq<i32>, b: Seq<i32>)
    requires
        a.len() == b.len(),
    ensures
        spec_squared_distance(a, b) == 0 <==> a == b,
    decreases a.len(),
{
    if a.len() == 0 {
        assert(a =~= b);
    } else {
        lemma_squared_distance_zero_iff_equal(a.drop_last(), b.drop_last());
        lemma_squared_distance_nonnegative(a.drop_last(), b.drop_last());
        let d: int = a.last() - b.last();
        assert(d * d >= 0 && (d * d == 0 <==> d == 0)) by (nonlinear_arith);
        if a.drop_last() == b.drop_last() && a.last() == b.last() {
            assert(a =~= a.drop_last().push(a.last()));
            assert(b =~= b.drop_last().push(b.last()));
        }
    }
}

/// Computes the squared Euclidean distance between `lhs` and `rhs`.
///
/// Vectors of different lengths are rejected. The sum is exact for every
/// input: a squared difference of two `i32` values is below `2^64`, and a
/// vector holds fewer than `2^64` of them, so the sum fits in a `u128`.
pub fn squared_distance(lhs: &Vec<i32>, rhs: &Vec<i32>) -> (r: Result<u128, ClassifyError>)
    ensures
        match r {
            Ok(d) => lhs.len() == rhs.len() && d == spec_squared_distance(lhs@, rhs@),
            Err(e) => lhs.len() != rhs.len() && e == ClassifyError::DimensionMismatch,
        },
{
    if lhs.len() != rhs.len() {
        return Err(ClassifyError::DimensionMismatch);
    }
    let n: usize = lhs.len();
    let mut sum: u128 = 0;
    let mut i: usize = 0;
    while i < n
        invariant
            n == lhs.len(),
            n == rhs.len(),
            i <= n,
            sum == spec_squared_distance(lhs@.take(i as int), rhs@.take(i as int)),
            sum <= i * 0x1_0000_0000_0000_0000,
        decreases n - i,
    {
        let d: i128 = lhs[i] as i128 - rhs[i] as i128;
        assert(0 <= d * d <= 0x1_0000_0000_0000_0000) by (nonlinear_arith)
            requires
                -0x1_0000_0000 <= d <= 0x1_0000_0000,
        ;
        let square: i128 = d * d;
        proof {
            assert(lhs@.take(i + 1).drop_last() =~= lhs@.take(i as int));
            assert(rhs@.take(i + 1).drop_last() =~= rhs@.take(i as int));
        }
        sum = sum + square as u128;
        i = i + 1;
    }
    proof {
        assert(lhs@.take(n as int) =~= lhs@);
        assert(rhs@.take(n as int) =~= rhs@);
    }
    Ok(sum)
}

} // verus!
