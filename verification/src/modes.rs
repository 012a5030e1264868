//! The mode drawer: a fixed, ordered enumeration of game-mode labels,
//! and an exclusion-aware draw of a subset of them.

use vstd::prelude::*;
use crate::rng::{shuffle, random_below, lemma_permutation_keeps_distinct_keys};

verus! {

/// How many game-mode labels the fixed enumeration holds.
pub const GAME_MODE_COUNT: usize = 8;

/// The fixed, ordered enumeration of game-mode labels, as character
/// sequences. Exclusion lists refer to these by 1-based position.
pub open spec fn spec_game_modes() -> Seq<Seq<char>> {
    seq![
        "Apocalpyse"@,
        "Barbarian Clans"@,
        "Dramatic Ages"@,
        "Heroes & Legends"@,
        "Monopolies and Corporations"@,
        "Secrete Societies"@,
        "Tech and Civic Shuffle"@,
        "Zombie Defense"@,
    ]
}

/// The mode labels are pairwise distinct.
pub proof fn lemma_game_modes_distinct()
    ensures
        forall|i: int, j: int|
            0 <= i < j < spec_game_modes().len() ==> spec_game_modes()[i] != spec_game_modes()[j],
{
    reveal_strlit("Apocalpyse");
    reveal_strlit("Barbarian Clans");
    reveal_strlit("Dramatic Ages");
    reveal_strlit("Heroes & Legends");
    reveal_strlit("Monopolies and Corporations");
    reveal_strlit("Secrete Societies");
    reveal_strlit("Tech and Civic Shuffle");
    reveal_strlit("Zombie Defense");
    // The eight labels even differ in length alone.
    assert(spec_game_modes()[0].len() == 10);
    assert(spec_game_modes()[1].len() == 15);
    assert(spec_game_modes()[2].len() == 13);
    assert(spec_game_modes()[3].len() == 16);
    assert(spec_game_modes()[4].len() == 27);
    assert(spec_game_modes()[5].len() == 17);
    assert(spec_game_modes()[6].len() == 22);
    assert(spec_game_modes()[7].len() == 14);
}

/// The ordered list of valid mode labels; its length is
/// `GAME_MODE_COUNT`. Callers validate counts and exclusion positions
/// against this list before drawing.
pub fn game_modes() -> (r: Vec<&'static str>)
    ensures
        r@.len() == GAME_MODE_COUNT,
        r@.len() == spec_game_modes().len(),
        forall|i: int| 0 <= i < r@.len() ==> (#[trigger] r@[i])@ == spec_game_modes()[i],
{
    let r: Vec<&'static str> = vec![
        "Apocalpyse",
        "Barbarian Clans",
        "Dramatic Ages",
        "Heroes & Legends",
        "Monopolies and Corporations",
        "Secrete Societies",
        "Tech and Civic Shuffle",
        "Zombie Defense",
    ];
    r
}

/// The 0-based mode position `pos` is struck out by the 1-based
/// exclusion list `ex`.
pub open spec fn excluded(ex: Seq<usize>, pos: int) -> bool {
    ex.contains((pos + 1) as usize)
}

/// The labels of the first `k` mode positions that survive the
/// exclusion list, in enumeration order.
pub open spec fn eligible_prefix(ex: Seq<usize>, k: int) -> Seq<Seq<char>>
    decreases k,
{
    if k <= 0 {
        Seq::empty()
    } else if excluded(ex, k - 1) {
        eligible_prefix(ex, k - 1)
    } else {
        eligible_prefix(ex, k - 1).push(spec_game_modes()[k - 1])
    }
}

/// The eligible pool: every mode label whose 1-based position does not
/// appear in the exclusion list, in enumeration order.
pub open spec fn eligible_labels(ex: Seq<usize>) -> Seq<Seq<char>> {
    eligible_prefix(ex, GAME_MODE_COUNT as int)
}

/// The exclusion list denoted by the optional argument: absent means
/// nothing is excluded.
pub open spec fn spec_exclude_of(exclude: Option<&[usize]>) -> Seq<usize> {
    match exclude {
        Some(s) => s@,
        None => Seq::empty(),
    }
}

/// Every eligible label is the label of some surviving mode position.
pub proof fn lemma_eligible_members(ex: Seq<usize>, k: int)
    requires
        k <= spec_game_modes().len(),
    ensures
        forall|t: int| 0 <= t < eligible_prefix(ex, k).len() ==> exists|i: int|
            0 <= i < k && !excluded(ex, i) && #[trigger] eligible_prefix(ex, k)[t]
                == spec_game_modes()[i],
    decreases k,
{
    if k > 0 {
        lemma_eligible_members(ex, k - 1);
        assert forall|t: int| 0 <= t < eligible_prefix(ex, k).len() implies exists|i: int|
            0 <= i < k && !excluded(ex, i) && #[trigger] eligible_prefix(ex, k)[t]
                == spec_game_modes()[i] by {
            if t < eligible_prefix(ex, k - 1).len() {
                assert(eligible_prefix(ex, k)[t] == eligible_prefix(ex, k - 1)[t]);
                let i0 = choose|i: int|
                    0 <= i < k - 1 && !excluded(ex, i) && #[trigger] eligible_prefix(ex, k - 1)[t]
                        == spec_game_modes()[i];
                assert(eligible_prefix(ex, k)[t] == spec_game_modes()[i0]);
            } else {
                assert(!excluded(ex, k - 1) && eligible_prefix(ex, k)[t] == spec_game_modes()[k
                    - 1]);
            }
        }
    }
}

/// The eligible labels are pairwise distinct.
pub proof fn lemma_eligible_distinct(ex: Seq<usize>, k: int)
    requires
        k <= spec_game_modes().len(),
    ensures
        forall|t1: int, t2: int|
            0 <= t1 < t2 < eligible_prefix(ex, k).len() ==> #[trigger] eligible_prefix(ex, k)[t1]
                != #[trigger] eligible_prefix(ex, k)[t2],
    decreases k,
{
    if k > 0 {
        lemma_eligible_distinct(ex, k - 1);
        lemma_eligible_members(ex, k - 1);
        lemma_game_modes_distinct();
        if !excluded(ex, k - 1) {
            assert forall|t1: int, t2: int|
                0 <= t1 < t2 < eligible_prefix(ex, k).len() implies #[trigger] eligible_prefix(
                ex,
                k,
            )[t1] != #[trigger] eligible_prefix(ex, k)[t2] by {
                if t2 == eligible_prefix(ex, k - 1).len() {
                    let i0 = choose|i: int|
                        0 <= i < k - 1 && !excluded(ex, i) && #[trigger] eligible_prefix(
                            ex,
                            k - 1,
                        )[t1] == spec_game_modes()[i];
                    assert(eligible_prefix(ex, k)[t2] == spec_game_modes()[k - 1]);
                    assert(spec_game_modes()[i0] != spec_game_modes()[k - 1]);
                }
            }
        }
    }
}

/// The views of a list of string slices.
pub open spec fn label_views(s: Seq<&str>) -> Seq<Seq<char>> {
    s.map_values(|t: &str| t@)
}

/// Whether `x` occurs in the slice.
fn contains_pos(ex: &[usize], x: usize) -> (r: bool)
    ensures
        r == ex@.contains(x),
{
    let mut i: usize = 0;
    while i < ex.len()
        invariant
            i <= ex@.len(),
            forall|k: int| 0 <= k < i ==> ex@[k] != x,
        decreases ex@.len() - i,
    {
        if ex[i] == x {
            return true;
        }
        i = i + 1;
    }
    false
}

/// Draws game-mode labels without replacement. The eligible pool is
/// the enumeration minus the modes named by the 1-based `exclude`
/// positions. With `n = Some(k)` exactly `k` labels come back; the
/// caller must keep `k` within the pool, which this function does not
/// bounds-check. With `n = None` the draw size itself is drawn
/// uniformly from `[0, pool size)`, so the full pool is never returned
/// and the pool must not be empty. The result's order is the shuffle's.
pub fn draw_modes(n: Option<usize>, exclude: Option<&[usize]>) -> (out: Vec<&'static str>)
    requires
        n matches Some(k) ==> k <= eligible_labels(spec_exclude_of(exclude)).len(),
        n is None ==> eligible_labels(spec_exclude_of(exclude)).len() > 0,
    ensures
        n matches Some(k) ==> out@.len() == k,
        n is None ==> out@.len() < eligible_labels(spec_exclude_of(exclude)).len(),
        forall|t: int| 0 <= t < out@.len() ==> exists|i: int|
            0 <= i < spec_game_modes().len() && !excluded(spec_exclude_of(exclude), i) && (
            #[trigger] out@[t])@ == spec_game_modes()[i],
        forall|t1: int, t2: int|
            0 <= t1 < t2 < out@.len() ==> (#[trigger] out@[t1])@ != (#[trigger] out@[t2])@,
        forall|t: int, p: int|
            #![trigger out@[t], spec_game_modes()[p]]
            0 <= t < out@.len() && 0 <= p < spec_game_modes().len() && excluded(
                spec_exclude_of(exclude),
                p,
            ) ==> out@[t]@ != spec_game_modes()[p],
{
    broadcast use vstd::seq_lib::group_to_multiset_ensures;

    let ghost ex = spec_exclude_of(exclude);
    let modes = game_modes();
    let mut elig: Vec<&'static str> = Vec::new();
    let mut i: usize = 0;
    while i < modes.len()
        invariant
            i <= modes@.len(),
            modes@.len() == spec_game_modes().len() == GAME_MODE_COUNT,
            forall|t: int| 0 <= t < modes@.len() ==> (#[trigger] modes@[t])@ == spec_game_modes()[t],
            ex == spec_exclude_of(exclude),
            label_views(elig@) == eligible_prefix(ex, i as int),
        decreases modes@.len() - i,
    {
        let is_out = match exclude {
            Some(exs) => contains_pos(exs, i + 1),
            None => false,
        };
        proof {
            assert(is_out == excluded(ex, i as int));
        }
        let ghost pre = elig@;
        if !is_out {
            elig.push(modes[i]);
            proof {
                assert(label_views(elig@) =~= label_views(pre).push(modes@[i as int]@));
            }
        }
        i = i + 1;
    }
    proof {
        assert(label_views(elig@).len() == elig@.len());
        lemma_eligible_members(ex, GAME_MODE_COUNT as int);
        lemma_eligible_distinct(ex, GAME_MODE_COUNT as int);
    }
    let count = match n {
        Some(k) => k,
        None => random_below(elig.len()),
    };
    let ghost pre_shuffle = elig@;
    shuffle(&mut elig);
    proof {
        assert forall|t1: int, t2: int| 0 <= t1 < t2 < pre_shuffle.len() implies (
        #[trigger] pre_shuffle[t1])@ != (#[trigger] pre_shuffle[t2])@ by {
            assert(label_views(pre_shuffle)[t1] == pre_shuffle[t1]@);
            assert(label_views(pre_shuffle)[t2] == pre_shuffle[t2]@);
        }
        lemma_permutation_keeps_distinct_keys(pre_shuffle, elig@, |s: &str| s@);
        pre_shuffle.to_multiset_ensures();
        elig@.to_multiset_ensures();
        assert(elig@.len() == pre_shuffle.len());
        assert forall|t: int| 0 <= t < elig@.len() implies exists|i2: int|
            0 <= i2 < spec_game_modes().len() && !excluded(ex, i2) && (#[trigger] elig@[t])@
                == spec_game_modes()[i2] by {
            assert(elig@.contains(elig@[t]));
            assert(pre_shuffle.to_multiset().count(elig@[t]) > 0);
            assert(pre_shuffle.contains(elig@[t]));
            let t0 = choose|t0: int| 0 <= t0 < pre_shuffle.len() && pre_shuffle[t0] == elig@[t];
            assert(label_views(pre_shuffle)[t0] == eligible_prefix(ex, GAME_MODE_COUNT as int)[t0]);
            let i2 = choose|i2: int|
                0 <= i2 < GAME_MODE_COUNT as int && !excluded(ex, i2) && #[trigger] eligible_prefix(
                    ex,
                    GAME_MODE_COUNT as int,
                )[t0] == spec_game_modes()[i2];
            assert((elig@[t])@ == spec_game_modes()[i2]);
        }
    }
    let mut out: Vec<&'static str> = Vec::new();
    let mut j: usize = 0;
    while j < count
        invariant
            j <= count <= elig@.len(),
            out@ == elig@.take(j as int),
        decreases count - j,
    {
        out.push(elig[j]);
        proof {
            assert(out@ =~= elig@.take(j as int + 1));
        }
        j = j + 1;
    }
    proof {
        assert forall|t: int| 0 <= t < out@.len() implies exists|i2: int|
            0 <= i2 < spec_game_modes().len() && !excluded(ex, i2) && (#[trigger] out@[t])@
                == spec_game_modes()[i2] by {
            assert(out@[t] == elig@[t]);
        }
        lemma_game_modes_distinct();
        assert forall|t: int, p: int|
            #![trigger out@[t], spec_game_modes()[p]]
            0 <= t < out@.len() && 0 <= p < spec_game_modes().len() && excluded(ex, p) implies
            out@[t]@ != spec_game_modes()[p] by {
            let i2 = choose|i2: int|
                0 <= i2 < spec_game_modes().len() && !excluded(ex, i2) && (#[trigger] out@[t])@
                    == spec_game_modes()[i2];
            assert(i2 != p);
        }
    }
    out
}

} // verus!
