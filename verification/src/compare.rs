//! The comparison of two perft results move by move, as when checking against another engine.
use vstd::prelude::*;
use crate::moves::{Move, Moves, PerftResult};

verus! {

/// The first difference between two perft results.
#[derive(Clone, Copy, PartialEq, Eq, Structural, Debug)]
pub enum PerftComparison {
    /// Every move of each result is a move of the other, with the same count.
    Agree,
    /// A move of both results has a different count: the move, their count, our count.
    CountDiffers(Move, usize, usize),
    /// A move that only the other result has.
    OnlyTheirs(Move),
    /// A move that only our result has.
    OnlyOurs(Move),
}

/// The first index from `i` on where `s` holds `x`, or `s.len()` when there is none.
pub open spec fn index_from(s: Seq<u16>, x: u16, i: int) -> int
    decreases s.len() - i,
{
    if i < 0 || i >= s.len() {
        s.len() as int
    } else if s[i] == x {
        i
    } else {
        index_from(s, x, i + 1)
    }
}

/// The outcome of checking their moves from the `i`-th on against ours, then ours against
/// theirs: their moves in order, each looked up among ours; the first that is missing or
/// whose count differs decides; otherwise our first move that they lack; otherwise agreement.
pub open spec fn compare_from(
    ours: Seq<u16>,
    our_counts: Seq<usize>,
    theirs: Seq<u16>,
    their_counts: Seq<usize>,
    i: int,
) -> PerftComparison
    decreases theirs.len() - i,
{
    if i < 0 || i >= theirs.len() {
        extra_from(ours, theirs, 0)
    } else {
        let k = index_from(ours, theirs[i], 0);
        if k >= ours.len() {
            PerftComparison::OnlyTheirs(Move { move1: theirs[i] })
        } else if our_counts[k] != their_counts[i] {
            PerftComparison::CountDiffers(Move { move1: theirs[i] }, their_counts[i], our_counts[k])
        } else {
            compare_from(ours, our_counts, theirs, their_counts, i + 1)
        }
    }
}

/// Our first move from the `j`-th on that they lack, or agreement.
pub open spec fn extra_from(ours: Seq<u16>, theirs: Seq<u16>, j: int) -> PerftComparison
    decreases ours.len() - j,
{
    if j < 0 || j >= ours.len() {
        PerftComparison::Agree
    } else if index_from(theirs, ours[j], 0) >= theirs.len() {
        PerftComparison::OnlyOurs(Move { move1: ours[j] })
    } else {
        extra_from(ours, theirs, j + 1)
    }
}

/// The first index of `x` among the listed moves, or the number of listed moves.
fn find_move(moves: &Moves, x: u16) -> (res: usize)
    requires
        moves.wf(),
    ensures
        res == index_from(moves.codes(), x, 0),
{
    let ghost s = moves.codes();
    let mut i: usize = 0;
    while i < moves.size
        invariant
            moves.wf(),
            s == moves.codes(),
            s.len() == moves.size,
            i <= moves.size,
            index_from(s, x, 0) == index_from(s, x, i as int),
        decreases moves.size - i,
    {
        if moves.array[i].move1 == x {
            return i;
        }
        i = i + 1;
    }
    i
}

/// Compares our perft result with theirs, move by move: the first move of theirs that we lack
/// or count differently, else the first move of ours that they lack, else agreement.
pub fn compare_perft(ours: &PerftResult, theirs: &PerftResult) -> (res: PerftComparison)
    requires
        ours.moves.wf(),
        theirs.moves.wf(),
        ours.counts@.len() >= ours.moves.size,
        theirs.counts@.len() >= theirs.moves.size,
    ensures
        res == compare_from(
            ours.moves.codes(),
            ours.counts@,
            theirs.moves.codes(),
            theirs.counts@,
            0,
        ),
{
    let ghost oc = ours.moves.codes();
    let ghost tc = theirs.moves.codes();
    let mut i: usize = 0;
    while i < theirs.moves.size
        invariant
            ours.moves.wf(),
            theirs.moves.wf(),
            ours.counts@.len() >= ours.moves.size,
            theirs.counts@.len() >= theirs.moves.size,
            oc == ours.moves.codes(),
            tc == theirs.moves.codes(),
            i <= theirs.moves.size,
            compare_from(oc, ours.counts@, tc, theirs.counts@, 0) == compare_from(
                oc,
                ours.counts@,
                tc,
                theirs.counts@,
                i as int,
            ),
        decreases theirs.moves.size - i,
    {
        let move1 = theirs.moves.array[i];
        let count = theirs.counts[i];
        assert(tc[i as int] == move1.move1);
        let k = find_move(&ours.moves, move1.move1);
        if k >= ours.moves.size {
            return PerftComparison::OnlyTheirs(move1);
        }
        let our_count = ours.counts[k];
        if our_count != count {
            return PerftComparison::CountDiffers(move1, count, our_count);
        }
        i = i + 1;
    }
    let mut j: usize = 0;
    while j < ours.moves.size
        invariant
            ours.moves.wf(),
            theirs.moves.wf(),
            oc == ours.moves.codes(),
            tc == theirs.moves.codes(),
            j <= ours.moves.size,
            compare_from(oc, ours.counts@, tc, theirs.counts@, 0) == extra_from(oc, tc, j as int),
        decreases ours.moves.size - j,
    {
        let move1 = ours.moves.array[j];
        assert(oc[j as int] == move1.move1);
        let k = find_move(&theirs.moves, move1.move1);
        if k >= theirs.moves.size {
            return PerftComparison::OnlyOurs(move1);
        }
        j = j + 1;
    }
    PerftComparison::Agree
}


/// One of our moves is `m`, counted `c`.
pub open spec fn ours_count_for(ours: Seq<u16>, our_counts: Seq<usize>, m: u16, c: usize) -> bool {
    exists|q: int| 0 <= q < ours.len() && #[trigger] ours[q] == m && our_counts[q] == c
}

/// Their moves from the `i`-th up to the `a`-th (excluded) are ours too, with the same counts.
pub open spec fn theirs_matched(
    ours: Seq<u16>,
    our_counts: Seq<usize>,
    theirs: Seq<u16>,
    their_counts: Seq<usize>,
    i: int,
    a: int,
) -> bool {
    forall|k: int|
        i <= k < a ==> ours_count_for(ours, our_counts, #[trigger] theirs[k], their_counts[k])
}

/// Where `index_from` lands: on `x` when it finds it, past every `x` it skipped otherwise.
proof fn lemma_index_from(s: Seq<u16>, x: u16, i: int)
    requires
        0 <= i <= s.len(),
    ensures
        i <= index_from(s, x, i) <= s.len(),
        index_from(s, x, i) < s.len() ==> s[index_from(s, x, i)] == x,
        index_from(s, x, i) == s.len() ==> forall|k: int| i <= k < s.len() ==> s[k] != x,
    decreases s.len() - i,
{
    if i < s.len() && s[i] != x {
        lemma_index_from(s, x, i + 1);
    }
}

/// What the check of our moves against theirs from the `j`-th on concludes.
proof fn lemma_extra_from(ours: Seq<u16>, theirs: Seq<u16>, j: int)
    requires
        0 <= j <= ours.len(),
    ensures
        extra_from(ours, theirs, j) == PerftComparison::Agree ==> forall|k: int|
            j <= k < ours.len() ==> theirs.contains(#[trigger] ours[k]),
        extra_from(ours, theirs, j) matches PerftComparison::OnlyOurs(m) ==> ours.contains(m.move1)
            && !theirs.contains(m.move1),
        extra_from(ours, theirs, j) is Agree || extra_from(ours, theirs, j) is OnlyOurs,
    decreases ours.len() - j,
{
    if j < ours.len() {
        lemma_index_from(theirs, ours[j], 0);
        lemma_extra_from(ours, theirs, j + 1);
        if index_from(theirs, ours[j], 0) < theirs.len() {
            assert(theirs[index_from(theirs, ours[j], 0)] == ours[j]);
        } else {
            assert(ours[j] == ours[j]);
        }
    }
}

/// What the check of their moves from the `i`-th on concludes.
proof fn lemma_compare_from(
    ours: Seq<u16>,
    our_counts: Seq<usize>,
    theirs: Seq<u16>,
    their_counts: Seq<usize>,
    i: int,
)
    requires
        0 <= i <= theirs.len(),
        our_counts.len() >= ours.len(),
        their_counts.len() >= theirs.len(),
    ensures
        ({
            let r = compare_from(ours, our_counts, theirs, their_counts, i);
            &&& r == PerftComparison::Agree ==> {
                &&& forall|k: int|
                    i <= k < theirs.len() ==> ours_count_for(ours, our_counts, #[trigger] theirs[k], their_counts[k])
                &&& forall|k: int| 0 <= k < ours.len() ==> theirs.contains(#[trigger] ours[k])
            }
            &&& r matches PerftComparison::CountDiffers(m, theirs_count, ours_count) ==> {
                &&& theirs_count != ours_count
                &&& exists|a: int, b: int|
                    0 <= a < theirs.len() && 0 <= b < ours.len() && #[trigger] theirs[a]
                        == m.move1 && #[trigger] ours[b] == m.move1 && their_counts[a]
                        == theirs_count && our_counts[b] == ours_count
            }
            &&& r matches PerftComparison::OnlyTheirs(m) ==> theirs.contains(m.move1)
                && !ours.contains(m.move1)
            &&& r matches PerftComparison::OnlyOurs(m) ==> ours.contains(m.move1)
                && !theirs.contains(m.move1)
            &&& r is OnlyOurs ==> theirs_matched(ours, our_counts, theirs, their_counts, i, theirs.len() as int)
            &&& (r is CountDiffers || r is OnlyTheirs) ==> exists|a: int|
                i <= a < theirs.len() && theirs_matched(ours, our_counts, theirs, their_counts, i, a)
                    && #[trigger] theirs[a] == (match r {
                    PerftComparison::CountDiffers(m, _, _) => m.move1,
                    PerftComparison::OnlyTheirs(m) => m.move1,
                    _ => 0u16,
                })
        }),
    decreases theirs.len() - i,
{
    if i < theirs.len() {
        let x = theirs[i];
        lemma_index_from(ours, x, 0);
        let q = index_from(ours, x, 0);
        lemma_compare_from(ours, our_counts, theirs, their_counts, i + 1);
        if q >= ours.len() {
            assert(theirs.contains(x));
        } else if our_counts[q] != their_counts[i] {
            assert(theirs[i] == x && ours[q] == x);
        } else {
            let r = compare_from(ours, our_counts, theirs, their_counts, i);
            if r == PerftComparison::Agree {
                assert forall|k: int| i <= k < theirs.len() implies ours_count_for(
                    ours,
                    our_counts,
                    #[trigger] theirs[k],
                    their_counts[k],
                ) by {
                    if k == i {
                        assert(ours[q] == theirs[k] && our_counts[q] == their_counts[k]);
                    }
                }
            }
        }
    } else {
        lemma_extra_from(ours, theirs, 0);
    }
}

/// What a comparison of two perft results concludes, stated over the lists themselves: they
/// agree only when every move of theirs is one of ours with the same count and every move of
/// ours is one of theirs; a count difference names a move both have, with the two different
/// counts; a missing move is one that one list has and the other lacks. Their moves are
/// checked first and in their order: a difference in their moves is reported at the first of
/// their moves that we lack or count differently, and a move only we have is reported only
/// when all of theirs match.
pub proof fn law_compare_perft_outcomes(
    ours: Seq<u16>,
    our_counts: Seq<usize>,
    theirs: Seq<u16>,
    their_counts: Seq<usize>,
)
    requires
        our_counts.len() >= ours.len(),
        their_counts.len() >= theirs.len(),
    ensures
        ({
            let r = compare_from(ours, our_counts, theirs, their_counts, 0);
            &&& r == PerftComparison::Agree ==> {
                &&& forall|k: int|
                    0 <= k < theirs.len() ==> ours_count_for(ours, our_counts, #[trigger] theirs[k], their_counts[k])
                &&& forall|k: int| 0 <= k < ours.len() ==> theirs.contains(#[trigger] ours[k])
            }
            &&& r matches PerftComparison::CountDiffers(m, theirs_count, ours_count) ==> {
                &&& theirs_count != ours_count
                &&& exists|a: int, b: int|
                    0 <= a < theirs.len() && 0 <= b < ours.len() && #[trigger] theirs[a]
                        == m.move1 && #[trigger] ours[b] == m.move1 && their_counts[a]
                        == theirs_count && our_counts[b] == ours_count
            }
            &&& r matches PerftComparison::OnlyTheirs(m) ==> theirs.contains(m.move1)
                && !ours.contains(m.move1)
            &&& r matches PerftComparison::OnlyOurs(m) ==> ours.contains(m.move1)
                && !theirs.contains(m.move1)
            &&& r is OnlyOurs ==> theirs_matched(ours, our_counts, theirs, their_counts, 0, theirs.len() as int)
            &&& (r is CountDiffers || r is OnlyTheirs) ==> exists|a: int|
                0 <= a < theirs.len() && theirs_matched(ours, our_counts, theirs, their_counts, 0, a)
                    && #[trigger] theirs[a] == (match r {
                    PerftComparison::CountDiffers(m, _, _) => m.move1,
                    PerftComparison::OnlyTheirs(m) => m.move1,
                    _ => 0u16,
                })
        }),
{
    lemma_compare_from(ours, our_counts, theirs, their_counts, 0);
}

} // verus!
