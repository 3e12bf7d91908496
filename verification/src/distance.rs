//! Similarity metrics.
//!
//! Cosine similarity is the only metric; the `.lvdb` header reserves a byte
//! for others.

use crate::float::arith::{lemma_commutative, lemma_parts, round_ratio, unit};
use crate::float::rounding::round_halves;
use crate::float::{F32, NEG_ZERO_BITS};
use vstd::arithmetic::power2::{lemma2_to64, lemma_pow2_pos};
use vstd::prelude::*;

verus! {

/// The terms summed from left to right, each partial sum rounded. The sum of
/// no terms is `-0`, the neutral element of addition.
pub open spec fn running_sum(terms: Seq<F32>) -> F32
    decreases terms.len(),
{
    if terms.len() == 0 {
        F32 { bits: NEG_ZERO_BITS }
    } else {
        F32::sum(running_sum(terms.drop_last()), terms.last())
    }
}

/// How many components two vectors have in common.
pub open spec fn common(a: Seq<F32>, b: Seq<F32>) -> nat {
    if a.len() <= b.len() {
        a.len()
    } else {
        b.len()
    }
}

/// The products of the components that the vectors have in common.
pub open spec fn products(a: Seq<F32>, b: Seq<F32>) -> Seq<F32> {
    Seq::new(common(a, b), |i: int| F32::product(a[i], b[i]))
}

/// The length of a vector.
pub open spec fn norm(a: Seq<F32>) -> F32 {
    F32::square_root(running_sum(products(a, a)))
}

/// The cosine of the angle between two vectors, and zero where either has no
/// length. Only the components that both have count.
#[verifier::opaque]
pub open spec fn similarity(a: Seq<F32>, b: Seq<F32>) -> F32 {
    let n = common(a, b) as int;
    let norm_a = norm(a.take(n));
    let norm_b = norm(b.take(n));
    if norm_a.zero() || norm_b.zero() {
        F32 { bits: 0 }
    } else {
        F32::quotient(running_sum(products(a, b)), F32::product(norm_a, norm_b))
    }
}

/// The sum of the products of the components that the vectors have in common.
fn dot(a: &[F32], b: &[F32]) -> (r: F32)
    ensures
        r == running_sum(products(a@, b@)),
{
    let n: usize = if a.len() <= b.len() {
        a.len()
    } else {
        b.len()
    };
    let mut sum = F32 { bits: NEG_ZERO_BITS };
    let mut i: usize = 0;
    let ghost terms = products(a@, b@);
    while i < n
        invariant
            i <= n,
            n <= a@.len(),
            n <= b@.len(),
            n == terms.len(),
            terms == products(a@, b@),
            sum == running_sum(terms.take(i as int)),
        decreases n - i,
    {
        assert(terms.take(i + 1).drop_last() =~= terms.take(i as int));
        sum = sum.plus(a[i].times(b[i]));
        i = i + 1;
    }
    assert(terms.take(i as int) =~= terms);
    sum
}

/// Cosine similarity of two vectors — higher means more similar.
///
/// Returns zero if either vector has zero magnitude. Extra elements of the
/// longer vector are ignored.
pub fn cosine_similarity(a: &[F32], b: &[F32]) -> (r: F32)
    ensures
        r == similarity(a@, b@),
{
    proof {
        reveal(similarity);
    }
    let n: usize = if a.len() <= b.len() {
        a.len()
    } else {
        b.len()
    };
    let head_a = vstd::slice::slice_subrange(a, 0, n);
    let head_b = vstd::slice::slice_subrange(b, 0, n);
    assert(head_a@ =~= a@.take(n as int));
    assert(head_b@ =~= b@.take(n as int));
    let norm_a = dot(head_a, head_a).sqrt();
    let norm_b = dot(head_b, head_b).sqrt();
    let zero = F32 { bits: 0 };
    if norm_a.equals(zero) || norm_b.equals(zero) {
        zero
    } else {
        dot(a, b).over(norm_a.times(norm_b))
    }
}

/// Similarity does not depend on the order of the two vectors.
pub proof fn lemma_similarity_symmetric(a: Seq<F32>, b: Seq<F32>)
    ensures
        similarity(a, b) == similarity(b, a),
{
    reveal(similarity);
    assert forall|i: int| 0 <= i < products(a, b).len() implies products(a, b)[i] == products(
        b,
        a,
    )[i] by {
        lemma_commutative(a[i], b[i]);
    }
    assert(products(a, b) =~= products(b, a));
    let n = common(a, b) as int;
    lemma_commutative(norm(a.take(n)), norm(b.take(n)));
}

/// Components that only one of the vectors has do not matter.
pub proof fn lemma_extra_ignored(a: Seq<F32>, b: Seq<F32>)
    ensures
        similarity(a, b) == similarity(
            a.take(common(a, b) as int),
            b.take(common(a, b) as int),
        ),
        a.len() <= b.len() ==> similarity(a, b) == similarity(a, b.take(a.len() as int)),
        b.len() <= a.len() ==> similarity(a, b) == similarity(a.take(b.len() as int), b),
{
    assert(a.take(a.len() as int) =~= a);
    assert(b.take(b.len() as int) =~= b);
    reveal(similarity);
    let n = common(a, b) as int;
    assert(products(a, b) =~= products(a.take(n), b.take(n)));
    assert(a.take(n).take(n) =~= a.take(n));
    assert(b.take(n).take(n) =~= b.take(n));
}

proof fn lemma_sum_of_zeros(terms: Seq<F32>)
    requires
        forall|i: int| 0 <= i < terms.len() ==> (#[trigger] terms[i]).zero(),
    ensures
        running_sum(terms).zero(),
    decreases terms.len(),
{
    if terms.len() > 0 {
        let rest = terms.drop_last();
        assert forall|i: int| 0 <= i < rest.len() implies (#[trigger] rest[i]).zero() by {
            assert(rest[i] == terms[i]);
        }
        lemma_sum_of_zeros(rest);
        reveal(F32::sum);
        lemma_parts(0);
        assert(running_sum(rest).magnitude() == 0 && terms.last().magnitude() == 0);
    }
}

/// A vector without length is similar to nothing: its score is zero against
/// every vector.
pub proof fn lemma_zero_vector_scores_zero(a: Seq<F32>, b: Seq<F32>)
    requires
        forall|i: int| 0 <= i < a.len() ==> (#[trigger] a[i]).zero(),
    ensures
        similarity(a, b) == (F32 { bits: 0 }),
        similarity(b, a) == (F32 { bits: 0 }),
{
    reveal(similarity);
    reveal(F32::product);
    reveal(F32::square_root);
    let head = a.take(common(a, b) as int);
    let terms = products(head, head);
    assert forall|i: int| 0 <= i < terms.len() implies (#[trigger] terms[i]).zero() by {
        assert(head[i] == a[i]);
        assert(a[i].zero());
        lemma_parts(0);
        assert(a[i].magnitude() == 0);
        assert(a[i].magnitude() * a[i].magnitude() == 0) by (nonlinear_arith)
            requires
                a[i].magnitude() == 0,
        ;
        lemma_pow2_pos(149);
        lemma2_to64();
        assert(round_halves(0, true) == 0);
        assert(round_ratio(0, unit()) == 0);
    }
    lemma_sum_of_zeros(terms);
}

} // verus!
