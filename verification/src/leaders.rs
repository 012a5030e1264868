//! The leader draft: sampling rows from a tabular pool so that no two
//! drawn rows share a name or share an affiliation.

use vstd::prelude::*;
use crate::rng::{shuffle, lemma_permutation_keeps_distinct_keys};

verus! {

/// One row of the tabular pool: a leader's name and the civilization
/// (affiliation) it belongs to.
#[derive(Debug, PartialEq, Eq)]
pub struct Leader {
    pub name: String,
    pub civ: String,
}

/// No two rows share a name, and no two rows share a civilization.
pub open spec fn distinct_leaders(s: Seq<Leader>) -> bool {
    forall|i: int, j: int|
        0 <= i < j < s.len() ==> (#[trigger] s[i]).name@ != (#[trigger] s[j]).name@ && s[i].civ@
            != s[j].civ@
}

/// Whether the candidate clashes with any already-chosen row, by name
/// or by civilization.
fn conflicts(chosen: &Vec<Leader>, cand: &Leader) -> (r: bool)
    ensures
        r == exists|i: int|
            0 <= i < chosen@.len() && ((#[trigger] chosen@[i]).name@ == cand.name@
                || chosen@[i].civ@ == cand.civ@),
{
    let mut i: usize = 0;
    while i < chosen.len()
        invariant
            i <= chosen@.len(),
            forall|k: int|
                0 <= k < i ==> (#[trigger] chosen@[k]).name@ != cand.name@ && chosen@[k].civ@
                    != cand.civ@,
        decreases chosen@.len() - i,
    {
        if chosen[i].name == cand.name || chosen[i].civ == cand.civ {
            return true;
        }
        i = i + 1;
    }
    false
}

/// Draws up to `n` rows from the pool: the pool is shuffled uniformly,
/// then scanned once, greedily accepting a row exactly when neither
/// its name nor its civilization has been accepted in this draw.
///
/// When the pool runs out before `n` rows are accepted, the draw
/// succeeds with fewer rows rather than failing: a caller that needs
/// an exact count must check the returned length. On a pool whose rows
/// are pairwise distinct in both name and civilization, the draw is
/// never cut short, and exactly `min(n, pool len)` rows come back.
pub fn draw_leaders(pool: Vec<Leader>, n: usize) -> (out: Vec<Leader>)
    ensures
        out@.len() <= n,
        out@.len() <= pool@.len(),
        distinct_leaders(out@),
        forall|i: int| 0 <= i < out@.len() ==> pool@.contains(#[trigger] out@[i]),
        distinct_leaders(pool@) ==> out@.len() == if n <= pool@.len() {
            n as int
        } else {
            pool@.len() as int
        },
{
    broadcast use vstd::seq_lib::group_to_multiset_ensures;

    let ghost pool0 = pool@;
    let mut rows = pool;
    shuffle(&mut rows);
    proof {
        if distinct_leaders(pool0) {
            lemma_permutation_keeps_distinct_keys(pool0, rows@, |l: Leader| l.name@);
            lemma_permutation_keeps_distinct_keys(pool0, rows@, |l: Leader| l.civ@);
            assert(distinct_leaders(rows@));
        }
    }
    let mut out: Vec<Leader> = Vec::new();
    let mut idx: usize = 0;
    while idx < rows.len() && out.len() < n
        invariant
            idx <= rows@.len(),
            out@.len() <= n,
            out@.len() <= idx,
            rows@.to_multiset() == pool0.to_multiset(),
            distinct_leaders(out@),
            forall|i: int| 0 <= i < out@.len() ==> pool0.contains(#[trigger] out@[i]),
            distinct_leaders(pool0) ==> distinct_leaders(rows@) && out@ == rows@.take(idx as int),
        decreases rows@.len() - idx,
    {
        broadcast use vstd::seq_lib::group_to_multiset_ensures;

        let cand = &rows[idx];
        if !conflicts(&out, cand) {
            let picked = Leader { name: cand.name.clone(), civ: cand.civ.clone() };
            proof {
                assert(picked == rows@[idx as int]);
                assert(rows@.contains(rows@[idx as int]));
                assert(pool0.to_multiset().count(rows@[idx as int]) > 0);
            }
            out.push(picked);
        } else {
            proof {
                if distinct_leaders(pool0) {
                    // With an all-distinct pool nothing ever clashes:
                    // every chosen row is an earlier row of the shuffle.
                    let i0 = choose|i: int|
                        0 <= i < out@.len() && ((#[trigger] out@[i]).name@ == rows@[idx as int].name@
                            || out@[i].civ@ == rows@[idx as int].civ@);
                    assert(out@[i0] == rows@[i0]);
                    assert(false);
                }
            }
        }
        idx = idx + 1;
        proof {
            if distinct_leaders(pool0) {
                assert(out@ =~= rows@.take(idx as int));
            }
        }
    }
    proof {
        rows@.to_multiset_ensures();
        pool0.to_multiset_ensures();
        assert(rows@.len() == pool0.len());
        if distinct_leaders(pool0) {
            if idx < rows@.len() {
                assert(out@.len() == n);
            } else {
                assert(out@.len() == rows@.len());
            }
        }
    }
    out
}

} // verus!
