//! The crate's only sources of randomness, and what a caller may still
//! conclude after a value has passed through one of them.
//!
//! Nothing is assumed about which outcome a draw produces, only about
//! what holds of every outcome: a shuffle permutes its input, and a
//! bounded draw stays below its bound.

use vstd::prelude::*;
use rand::Rng;
use rand::seq::SliceRandom;

verus! {

/// Relies on rand's `SliceRandom::shuffle` with a fresh `ThreadRng`:
/// it permutes the slice in place, so the multiset of elements is kept.
#[verifier::external_body]
pub(crate) fn shuffle<T>(v: &mut Vec<T>)
    ensures
        final(v)@.to_multiset() == old(v)@.to_multiset(),
{
    v.shuffle(&mut rand::rng());
}

/// Relies on rand's `Rng::random_range` with a fresh `ThreadRng` over
/// `0..bound`: it returns a value of the (non-empty) range, and panics
/// on an empty one, which the precondition rules out.
#[verifier::external_body]
pub(crate) fn random_below(bound: usize) -> (r: usize)
    requires
        bound > 0,
    ensures
        r < bound,
{
    rand::rng().random_range(0..bound)
}

/// A permutation cannot introduce a clash: if some key is distinct
/// across `a`, it is distinct across any reordering `b` of `a`.
pub proof fn lemma_permutation_keeps_distinct_keys<T, K>(a: Seq<T>, b: Seq<T>, key: spec_fn(T) -> K)
    requires
        a.to_multiset() == b.to_multiset(),
        forall|i: int, j: int| 0 <= i < j < a.len() ==> key(a[i]) != key(a[j]),
    ensures
        forall|i: int, j: int| 0 <= i < j < b.len() ==> key(b[i]) != key(b[j]),
{
    broadcast use vstd::seq_lib::group_to_multiset_ensures;

    assert forall|i: int, j: int| 0 <= i < j < b.len() implies key(b[i]) != key(b[j]) by {
        if key(b[i]) == key(b[j]) {
            if b[i] == b[j] {
                // The same row twice in `b` means its count is at least
                // two, which `a`, having it at most once, cannot match.
                assert(a.no_duplicates());
                a.lemma_multiset_has_no_duplicates();
                b.lemma_multiset_has_no_duplicates_conv();
                assert(false);
            } else {
                // Two different rows with one key: both sit somewhere in
                // `a`, at distinct places, clashing there as well.
                assert(b.contains(b[i]) && b.contains(b[j]));
                assert(b.to_multiset().count(b[i]) > 0 && b.to_multiset().count(b[j]) > 0);
                assert(a.contains(b[i]) && a.contains(b[j]));
                let i0 = choose|k: int| 0 <= k < a.len() && a[k] == b[i];
                let j0 = choose|k: int| 0 <= k < a.len() && a[k] == b[j];
                assert(i0 != j0);
                assert(false);
            }
        }
    }
}

} // verus!
