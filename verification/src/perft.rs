use vstd::prelude::*;
use crate::fen::{Fen, has_own_king, make_move_spec};
use crate::movegen::legal_moves;
use crate::moves::PerftResult;

verus! {

/// The number of leaves of the legal move tree of `a` counted the way `recursive_perft`
/// counts them: none at depth 0 (where it only completes without legal moves), one at depth
/// 1, the number of legal moves at depth 2, and otherwise the sum over the legal moves of the
/// count one level down.
pub open spec fn perft_count(depth: int, a: Seq<u64>) -> int
    decreases depth, 0int,
{
    if depth <= 0 {
        0
    } else if depth == 1 {
        1
    } else if depth == 2 {
        legal_moves(a).len() as int
    } else {
        perft_sum(depth - 1, a, legal_moves(a))
    }
}

/// The sum of `perft_count(depth, ..)` over the positions after each move of `ms`.
pub open spec fn perft_sum(depth: int, a: Seq<u64>, ms: Seq<u16>) -> int
    decreases depth, ms.len(),
{
    if ms.len() == 0 {
        0
    } else {
        perft_sum(depth, a, ms.drop_last()) + perft_count(depth, make_move_spec(a, ms.last()))
    }
}

/// `recursive_perft(depth, ..)` completes: every position it generates moves for has a king to
/// move, and at depth 0 the position has no legal move to go below.
pub open spec fn perft_safe(depth: int, a: Seq<u64>) -> bool
    decreases depth, 0int,
{
    &&& has_own_king(a)
    &&& (depth <= 0 ==> legal_moves(a).len() == 0)
    &&& (depth >= 3 ==> perft_safe_all(depth - 1, a, legal_moves(a)))
}

/// `perft_safe(depth, ..)` holds after each move of `ms`.
pub open spec fn perft_safe_all(depth: int, a: Seq<u64>, ms: Seq<u16>) -> bool
    decreases depth, ms.len(),
{
    if ms.len() == 0 {
        true
    } else {
        perft_safe_all(depth, a, ms.drop_last()) && perft_safe(depth, make_move_spec(a, ms.last()))
    }
}

proof fn lemma_perft_safe_all_index(depth: int, a: Seq<u64>, ms: Seq<u16>, i: int)
    requires
        perft_safe_all(depth, a, ms),
        0 <= i < ms.len(),
    ensures
        perft_safe(depth, make_move_spec(a, ms[i])),
    decreases ms.len(),
{
    if i < ms.len() - 1 {
        lemma_perft_safe_all_index(depth, a, ms.drop_last(), i);
    }
}

/// Leaf counts are never negative.
pub proof fn lemma_perft_count_nonneg(depth: int, a: Seq<u64>)
    ensures
        perft_count(depth, a) >= 0,
    decreases depth, 0int,
{
    if depth > 2 {
        lemma_perft_sum_nonneg(depth - 1, a, legal_moves(a));
    }
}

/// Sums of leaf counts are never negative.
pub proof fn lemma_perft_sum_nonneg(depth: int, a: Seq<u64>, ms: Seq<u16>)
    ensures
        perft_sum(depth, a, ms) >= 0,
    decreases depth, ms.len(),
{
    if ms.len() > 0 {
        lemma_perft_sum_nonneg(depth, a, ms.drop_last());
        lemma_perft_count_nonneg(depth, make_move_spec(a, ms.last()));
    }
}

/// Sums over prefixes grow with the prefix.
pub proof fn lemma_perft_sum_prefix(depth: int, a: Seq<u64>, ms: Seq<u16>, i: int)
    requires
        0 <= i <= ms.len(),
    ensures
        0 <= perft_sum(depth, a, ms.take(i)) <= perft_sum(depth, a, ms),
    decreases ms.len() - i,
{
    lemma_perft_sum_nonneg(depth, a, ms.take(i));
    if i < ms.len() {
        lemma_perft_sum_prefix(depth, a, ms, i + 1);
        assert(ms.take(i + 1).drop_last() =~= ms.take(i));
        lemma_perft_count_nonneg(depth, make_move_spec(a, ms.take(i + 1).last()));
    } else {
        assert(ms.take(i) =~= ms);
    }
}

/// At depth one every move counts once.
pub proof fn lemma_perft_sum_depth_one(a: Seq<u64>, ms: Seq<u16>)
    ensures
        perft_sum(1, a, ms) == ms.len(),
    decreases ms.len(),
{
    if ms.len() > 0 {
        lemma_perft_sum_depth_one(a, ms.drop_last());
        assert(perft_count(1, make_move_spec(a, ms.last())) == 1);
    }
}

proof fn lemma_perft_safe_child(depth: int, a: Seq<u64>, i: int)
    requires
        depth >= 3,
        perft_safe(depth, a),
        0 <= i < legal_moves(a).len(),
    ensures
        perft_safe(depth - 1, make_move_spec(a, legal_moves(a)[i])),
{
    lemma_perft_safe_all_index(depth - 1, a, legal_moves(a), i);
}

/// The number of leaves of the legal move tree of depth `depth` below the position.
pub fn recursive_perft(depth: usize, fen: &Fen) -> (res: usize)
    requires
        perft_safe(depth as int, fen@),
        perft_count(depth as int, fen@) <= usize::MAX,
    ensures
        res == perft_count(depth as int, fen@),
    decreases depth,
{
    let moves = fen.get_moves();

    if depth == 0 {
        return 0;
    }
    if depth == 1 {
        return 1;
    }
    if depth == 2 {
        return moves.size;
    }
    let ghost a = fen@;
    let ghost ms = moves.codes();
    let mut total: usize = 0;
    for i in 0..moves.size
        invariant
            moves.wf(),
            depth >= 3,
            a == fen@,
            ms == moves.codes(),
            ms == legal_moves(a),
            perft_safe(depth as int, a),
            perft_count(depth as int, a) <= usize::MAX,
            perft_count(depth as int, a) == perft_sum(depth - 1, a, ms),
            total == perft_sum(depth - 1, a, ms.take(i as int)),
    {
        let mut new_fen = Fen { array: fen.array };
        let move1 = moves.array[i];
        new_fen.make_move(move1);
        proof {
            assert(ms[i as int] == move1.move1);
            assert(ms.len() == moves.size);
            lemma_perft_safe_child(depth as int, a, i as int);
            lemma_perft_sum_prefix(depth - 1, a, ms, i + 1);
            assert(ms.take(i + 1).drop_last() =~= ms.take(i as int));
            assert(ms.take(i + 1).last() == move1.move1);
            lemma_perft_count_nonneg(depth - 1, new_fen@);
        }
        let count = recursive_perft(depth - 1, &new_fen);
        total += count;
    }
    proof {
        assert(ms.take(moves.size as int) =~= ms);
    }
    total
}

/// The sum of a list of counts.
pub open spec fn counts_sum(c: Seq<usize>) -> int
    decreases c.len(),
{
    if c.len() == 0 {
        0
    } else {
        counts_sum(c.drop_last()) + c.last()
    }
}

/// Every position `perft(depth, ..)` generates moves for has a king to move.
pub open spec fn perft_root_safe(depth: int, a: Seq<u64>) -> bool {
    has_own_king(a) && perft_safe_all(depth, a, legal_moves(a))
}

/// The legal moves of the position with the leaf count below each one at `depth`, and the
/// total.
pub fn perft(depth: usize, fen: &Fen) -> (result: PerftResult)
    requires
        perft_root_safe(depth as int, fen@),
        perft_sum(depth as int, fen@, legal_moves(fen@)) <= usize::MAX,
    ensures
        result.moves.wf(),
        result.moves.tight(),
        result.moves.codes() == legal_moves(fen@),
        result.counts@.len() == result.moves.size,
        forall|i: int|
            0 <= i < result.moves.size ==> #[trigger] result.counts@[i] == perft_count(
                depth as int,
                make_move_spec(fen@, legal_moves(fen@)[i]),
            ),
        result.total == perft_sum(depth as int, fen@, legal_moves(fen@)),
        depth >= 1 ==> result.total == perft_count(depth + 1, fen@),
        result.total == counts_sum(result.counts@),
{
    let mut result = PerftResult::empty();
    result.moves = fen.get_moves();
    let ghost a = fen@;
    let ghost ms = result.moves.codes();

    let n = result.moves.size;
    for i in 0..n
        invariant
            n == result.moves.size,
            result.moves.wf(),
            result.moves.tight(),
            ms == result.moves.codes(),
            ms == legal_moves(a),
            a == fen@,
            perft_root_safe(depth as int, a),
            perft_sum(depth as int, a, ms) <= usize::MAX,
            result.counts@.len() == i,
            forall|j: int|
                0 <= j < i ==> #[trigger] result.counts@[j] == perft_count(
                    depth as int,
                    make_move_spec(a, ms[j]),
                ),
            result.total == perft_sum(depth as int, a, ms.take(i as int)),
            result.total == counts_sum(result.counts@),
    {
        let mut new_fen = fen.clone_position();
        let move1 = result.moves.array[i];
        new_fen.make_move(move1);
        proof {
            assert(ms[i as int] == move1.move1);
            lemma_perft_safe_all_index(depth as int, a, ms, i as int);
            lemma_perft_sum_prefix(depth as int, a, ms, i + 1);
            assert(ms.take(i + 1).drop_last() =~= ms.take(i as int));
            lemma_perft_count_nonneg(depth as int, new_fen@);
        }
        let count = recursive_perft(depth, &new_fen);
        let ghost old_counts = result.counts@;
        result.counts.push(count);
        result.total += count;
        assert(result.counts@.drop_last() =~= old_counts);
    }
    proof {
        assert(ms.take(result.moves.size as int) =~= ms);
        if depth == 1 {
            lemma_perft_sum_depth_one(a, ms);
        }
    }
    result
}

/// `recursive_perft`, checking as it goes that every position it generates moves for has a
/// king to move and that the count fits in `usize`: `None` exactly when one of them fails.
pub fn checked_recursive_perft(depth: usize, fen: &Fen) -> (res: Option<usize>)
    ensures
        res == (if perft_safe(depth as int, fen@) && perft_count(depth as int, fen@) <= usize::MAX {
            Some(perft_count(depth as int, fen@) as usize)
        } else {
            None::<usize>
        }),
    decreases depth,
{
    if !fen.has_king() {
        return None;
    }
    let moves = fen.get_moves();
    if depth == 0 {
        return if moves.size == 0 {
            Some(0)
        } else {
            None
        };
    }
    if depth == 1 {
        return Some(1);
    }
    if depth == 2 {
        return Some(moves.size);
    }
    let ghost a = fen@;
    let ghost ms = moves.codes();
    let mut total: usize = 0;
    for i in 0..moves.size
        invariant
            moves.wf(),
            depth >= 3,
            a == fen@,
            has_own_king(a),
            ms == moves.codes(),
            ms == legal_moves(a),
            perft_count(depth as int, a) == perft_sum(depth - 1, a, ms),
            total == perft_sum(depth - 1, a, ms.take(i as int)),
            perft_safe_all(depth - 1, a, ms.take(i as int)),
    {
        let mut new_fen = Fen { array: fen.array };
        let move1 = moves.array[i];
        new_fen.make_move(move1);
        proof {
            assert(ms[i as int] == move1.move1);
            assert(ms.len() == moves.size);
            lemma_perft_sum_prefix(depth - 1, a, ms, i + 1);
            lemma_perft_sum_nonneg(depth - 1, a, ms.take(i as int));
            assert(ms.take(i + 1).drop_last() =~= ms.take(i as int));
            assert(ms.take(i + 1).last() == move1.move1);
            lemma_perft_count_nonneg(depth - 1, new_fen@);
            if perft_safe(depth as int, a) {
                lemma_perft_safe_child(depth as int, a, i as int);
            }
        }
        match checked_recursive_perft(depth - 1, &new_fen) {
            None => {
                return None;
            },
            Some(count) => {
                match total.checked_add(count) {
                    None => {
                        return None;
                    },
                    Some(t) => {
                        total = t;
                    },
                }
            },
        }
    }
    proof {
        assert(ms.take(moves.size as int) =~= ms);
    }
    Some(total)
}

/// `perft`, checking as it goes what it needs: a king to move in every position it generates
/// moves for, no legal move below at depth 0, and a total that fits in `usize`. `None`
/// exactly when one of them fails.
pub fn checked_perft(depth: usize, fen: &Fen) -> (res: Option<PerftResult>)
    ensures
        res is Some <==> perft_root_safe(depth as int, fen@) && perft_sum(
            depth as int,
            fen@,
            legal_moves(fen@),
        ) <= usize::MAX,
        res matches Some(result) ==> {
            &&& result.moves.wf()
            &&& result.moves.tight()
            &&& result.moves.codes() == legal_moves(fen@)
            &&& result.counts@.len() == result.moves.size
            &&& forall|i: int|
                0 <= i < result.moves.size ==> #[trigger] result.counts@[i] == perft_count(
                    depth as int,
                    make_move_spec(fen@, legal_moves(fen@)[i]),
                )
            &&& result.total == perft_sum(depth as int, fen@, legal_moves(fen@))
            &&& result.total == counts_sum(result.counts@)
        },
{
    if !fen.has_king() {
        return None;
    }
    let mut result = PerftResult::empty();
    result.moves = fen.get_moves();
    let ghost a = fen@;
    let ghost ms = result.moves.codes();

    let n = result.moves.size;
    for i in 0..n
        invariant
            n == result.moves.size,
            result.moves.wf(),
            result.moves.tight(),
            ms == result.moves.codes(),
            ms == legal_moves(a),
            a == fen@,
            has_own_king(a),
            perft_safe_all(depth as int, a, ms.take(i as int)),
            result.counts@.len() == i,
            forall|j: int|
                0 <= j < i ==> #[trigger] result.counts@[j] == perft_count(
                    depth as int,
                    make_move_spec(a, ms[j]),
                ),
            result.total == perft_sum(depth as int, a, ms.take(i as int)),
            result.total == counts_sum(result.counts@),
    {
        let mut new_fen = fen.clone_position();
        let move1 = result.moves.array[i];
        new_fen.make_move(move1);
        proof {
            assert(ms[i as int] == move1.move1);
            lemma_perft_sum_prefix(depth as int, a, ms, i + 1);
            lemma_perft_sum_nonneg(depth as int, a, ms.take(i as int));
            assert(ms.take(i + 1).drop_last() =~= ms.take(i as int));
            assert(ms.take(i + 1).last() == move1.move1);
            lemma_perft_count_nonneg(depth as int, new_fen@);
            if perft_safe_all(depth as int, a, ms) {
                lemma_perft_safe_all_index(depth as int, a, ms, i as int);
            }
        }
        let count = match checked_recursive_perft(depth, &new_fen) {
            None => {
                return None;
            },
            Some(count) => count,
        };
        let total = match result.total.checked_add(count) {
            None => {
                return None;
            },
            Some(t) => t,
        };
        let ghost old_counts = result.counts@;
        result.counts.push(count);
        result.total = total;
        assert(result.counts@.drop_last() =~= old_counts);
    }
    proof {
        assert(ms.take(result.moves.size as int) =~= ms);
    }
    Some(result)
}

/// The total that `perft` reports at `depth` is what `recursive_perft` counts one level
/// deeper: summing the counts of the moves at `depth` counts the tree of depth `depth + 1`.
pub proof fn law_perft_total_is_one_level_deeper(depth: int, a: Seq<u64>)
    requires
        depth >= 1,
    ensures
        perft_sum(depth, a, legal_moves(a)) == perft_count(depth + 1, a),
{
    if depth == 1 {
        lemma_perft_sum_depth_one(a, legal_moves(a));
    }
}

} // verus!
