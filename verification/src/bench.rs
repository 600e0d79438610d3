//! The totals that the speed comparisons of sliding-attack generation compute over a list of
//! positions.
use vstd::prelude::*;
use crate::bitboard::{bits_from, squares, lemma_walk_step, lemma_walk_end, lemma_bits_from_len,
    bit};
use crate::attacks::{rook_bb, get_rook_moves};
use crate::board::{white_of, occupied_of, get_white_pieces, get_black_pieces, ROOK_W};
use crate::bitwalk::{wrapped, lemma_wrapped_step};
use crate::fen::Fen;

verus! {

/// The squares attacked by rooks standing on `sqs` and not held by `white`, each attack set
/// read as a number, summed.
pub open spec fn rook_attack_sum(sqs: Seq<int>, occupied: u64, white: u64) -> nat
    decreases sqs.len(),
{
    if sqs.len() == 0 {
        0
    } else {
        rook_attack_sum(sqs.drop_last(), occupied, white) + ((rook_bb(sqs.last(), occupied)
            & !white) as nat)
    }
}

/// The sum for the white rooks of one position.
pub open spec fn position_rook_sum(a: Seq<u64>) -> nat {
    rook_attack_sum(squares(a[ROOK_W as int]), occupied_of(a), white_of(a))
}

/// The sums for the white rooks of a list of positions, added up.
pub open spec fn positions_rook_sum(ps: Seq<Seq<u64>>) -> nat
    decreases ps.len(),
{
    if ps.len() == 0 {
        0
    } else {
        positions_rook_sum(ps.drop_last()) + position_rook_sum(ps.last())
    }
}

/// For each position and each white rook in it, the squares the rook attacks that white does
/// not hold, read as a number and added to a wrapping total.
pub fn white_rook_attack_total(fens: &Vec<Fen>) -> (res: u64)
    ensures
        res == wrapped(positions_rook_sum(fens@.map_values(|f: Fen| f@)) as int),
{
    let ghost ps = fens@.map_values(|f: Fen| f@);
    let mut total: u64 = 0;
    proof {
        vstd::arithmetic::div_mod::lemma_small_mod(0, 0x1_0000_0000_0000_0000nat);
    }
    for i in 0..fens.len()
        invariant
            ps == fens@.map_values(|f: Fen| f@),
            total == wrapped(positions_rook_sum(ps.take(i as int)) as int),
    {
        let fen = &fens[i];
        let white = get_white_pieces(&fen.array);
        let black = get_black_pieces(&fen.array);
        let occupied = white | black;
        let rooks = fen.array[ROOK_W];
        let ghost a = fen@;
        let ghost before = positions_rook_sum(ps.take(i as int));
        assert(ps[i as int] == a);
        let mut rest = rooks;
        let ghost mut lo: int = 0;
        let ghost mut done: Seq<int> = Seq::empty();
        proof {
            lemma_bits_from_len(rooks, 0);
        }
        while rest != 0
            invariant
                0 <= lo <= 64,
                rooks == a[ROOK_W as int],
                white == white_of(a),
                occupied == occupied_of(a),
                forall|j: int| bit(rest, j) <==> bit(rooks, j) && lo <= j,
                squares(rooks) == done + bits_from(rooks, lo),
                total == wrapped((before + rook_attack_sum(done, occupied, white)) as int),
            decreases 64 - lo,
        {
            proof {
                lemma_walk_step(rooks, rest, lo);
            }
            let index = rest.trailing_zeros() as usize;
            let attacks = get_rook_moves(index, occupied) & !white;
            proof {
                let nd = done.push(index as int);
                assert(nd.drop_last() =~= done);
                assert(rook_attack_sum(nd, occupied, white) == rook_attack_sum(done, occupied, white)
                    + attacks);
                lemma_wrapped_step(
                    total,
                    (before + rook_attack_sum(done, occupied, white)) as int,
                    attacks,
                );
                assert(nd + bits_from(rooks, index + 1) =~= done + bits_from(rooks, lo));
                done = nd;
                lo = index + 1;
            }
            total = total.wrapping_add(attacks);
            rest = rest & (rest - 1);
        }
        proof {
            lemma_walk_end(rooks, lo);
            assert(done =~= squares(rooks));
            assert(ps.take(i + 1).drop_last() =~= ps.take(i as int));
        }
    }
    assert(ps.take(fens.len() as int) =~= ps);
    total
}

} // verus!
