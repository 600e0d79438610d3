//! Check, stated by the geometry of the pieces: the king of the side to move is in check
//! exactly when an opponent's piece reaches its square.
use vstd::prelude::*;
use vstd::std_specs::bits::{u64_trailing_zeros, axiom_u64_trailing_zeros};
use crate::bitboard::{bit, group_bits, lemma_bits_ext, lemma_bb_of_exists};
use crate::attacks::{
    knight_bb, king_bb, white_pawn_bb, black_pawn_bb, rook_bb, bishop_bb, queen_bb, knight_step,
    king_step, white_pawn_attack, black_pawn_attack, rook_attack, bishop_attack, queen_attack,
};
use crate::board::occupied_of;
use crate::fen::{white_turn, attacked_by_white, attacked_by_black, in_check_spec, own_king_sq,
    has_own_king};
use crate::validity::{lemma_rook_attack_symmetric, lemma_bishop_attack_symmetric,
    lemma_white_attacks_back, lemma_black_attacks_back};

verus! {

broadcast use group_bits;

/// The piece with index `x` (white pawn, knight, bishop, rook, queen, king, then the same for
/// black) standing on `p` reaches `t`: a pawn by its capture, the others by their moves,
/// the sliders stopped by the squares of `occ`.
pub open spec fn piece_reaches(x: int, p: int, occ: u64, t: int) -> bool {
    let kind = x % 6;
    if kind == 0 {
        if x < 6 {
            white_pawn_attack(p, t)
        } else {
            black_pawn_attack(p, t)
        }
    } else if kind == 1 {
        knight_step(p, t)
    } else if kind == 2 {
        bishop_attack(p, occ, t)
    } else if kind == 3 {
        rook_attack(p, occ, t)
    } else if kind == 4 {
        queen_attack(p, occ, t)
    } else {
        king_step(p, t)
    }
}

/// Some piece of the side not to move stands on a square from which it reaches `t`.
pub open spec fn opponent_reaches(a: Seq<u64>, t: int) -> bool {
    exists|x: int, p: int|
        (if white_turn(a) {
            6 <= x < 12
        } else {
            0 <= x < 6
        }) && 0 <= p < 64 && #[trigger] bit(a[x], p) && piece_reaches(x, p, occupied_of(a), t)
}

/// A nonzero bitboard holds some square.
proof fn lemma_some_square(v: u64)
    requires
        v != 0,
    ensures
        exists|j: int| 0 <= j < 64 && bit(v, j),
{
    if forall|j: int| 0 <= j < 64 ==> !bit(v, j) {
        assert forall|j: int| 0 <= j < 64 implies bit(v, j) == bit(0u64, j) by {}
        lemma_bits_ext(v, 0);
    }
}

/// The sets of attack squares are those of the attack relations.
proof fn lemma_attack_sets(s: int, occ: u64)
    ensures
        forall|t: int| #[trigger] bit(knight_bb(s), t) <==> 0 <= t < 64 && knight_step(s, t),
        forall|t: int| #[trigger] bit(king_bb(s), t) <==> 0 <= t < 64 && king_step(s, t),
        forall|t: int|
            #[trigger] bit(white_pawn_bb(s), t) <==> 0 <= t < 64 && white_pawn_attack(s, t),
        forall|t: int|
            #[trigger] bit(black_pawn_bb(s), t) <==> 0 <= t < 64 && black_pawn_attack(s, t),
        forall|t: int| #[trigger] bit(rook_bb(s, occ), t) <==> 0 <= t < 64 && rook_attack(s, occ, t),
        forall|t: int|
            #[trigger] bit(bishop_bb(s, occ), t) <==> 0 <= t < 64 && bishop_attack(s, occ, t),
        forall|t: int|
            #[trigger] bit(queen_bb(s, occ), t) <==> 0 <= t < 64 && queen_attack(s, occ, t),
{
    lemma_bb_of_exists(|t: int| knight_step(s, t));
    lemma_bb_of_exists(|t: int| king_step(s, t));
    lemma_bb_of_exists(|t: int| white_pawn_attack(s, t));
    lemma_bb_of_exists(|t: int| black_pawn_attack(s, t));
    lemma_bb_of_exists(|t: int| rook_attack(s, occ, t));
    lemma_bb_of_exists(|t: int| bishop_attack(s, occ, t));
    lemma_bb_of_exists(|t: int| queen_attack(s, occ, t));
}

/// A black piece that attacks `k` in the sense of `attacked_by_black` reaches it.
proof fn lemma_black_attacker(a: Seq<u64>, k: int, occ: u64)
    requires
        a.len() == 15,
        0 <= k < 64,
        attacked_by_black(a, k, occ),
    ensures
        exists|x: int, p: int|
            6 <= x < 12 && 0 <= p < 64 && #[trigger] bit(a[x], p) && piece_reaches(x, p, occ, k),
{
    let v = (knight_bb(k) & a[7]) | (white_pawn_bb(k) & a[6]) | (king_bb(k) & a[11]) | (rook_bb(
        k,
        occ,
    ) & (a[9] | a[10])) | (bishop_bb(k, occ) & (a[8] | a[10]));
    lemma_some_square(v);
    let j = choose|j: int| 0 <= j < 64 && bit(v, j);
    lemma_attack_sets(k, occ);
    if bit(knight_bb(k) & a[7], j) {
        assert(bit(a[7], j) && piece_reaches(7, j, occ, k));
    } else if bit(white_pawn_bb(k) & a[6], j) {
        assert(bit(a[6], j) && piece_reaches(6, j, occ, k));
    } else if bit(king_bb(k) & a[11], j) {
        assert(bit(a[11], j) && piece_reaches(11, j, occ, k));
    } else if bit(rook_bb(k, occ) & (a[9] | a[10]), j) {
        lemma_rook_attack_symmetric(k, occ, j);
        if bit(a[9], j) {
            assert(piece_reaches(9, j, occ, k));
        } else {
            assert(bit(a[10], j) && piece_reaches(10, j, occ, k));
        }
    } else {
        assert(bit(bishop_bb(k, occ) & (a[8] | a[10]), j));
        lemma_bishop_attack_symmetric(k, occ, j);
        if bit(a[8], j) {
            assert(piece_reaches(8, j, occ, k));
        } else {
            assert(bit(a[10], j) && piece_reaches(10, j, occ, k));
        }
    }
}

/// A white piece that attacks `k` in the sense of `attacked_by_white` reaches it.
proof fn lemma_white_attacker(a: Seq<u64>, k: int, occ: u64)
    requires
        a.len() == 15,
        0 <= k < 64,
        attacked_by_white(a, k, occ),
    ensures
        exists|x: int, p: int|
            0 <= x < 6 && 0 <= p < 64 && #[trigger] bit(a[x], p) && piece_reaches(x, p, occ, k),
{
    let v = (knight_bb(k) & a[1]) | (black_pawn_bb(k) & a[0]) | (king_bb(k) & a[5]) | (rook_bb(
        k,
        occ,
    ) & (a[3] | a[4])) | (bishop_bb(k, occ) & (a[2] | a[4]));
    lemma_some_square(v);
    let j = choose|j: int| 0 <= j < 64 && bit(v, j);
    lemma_attack_sets(k, occ);
    if bit(knight_bb(k) & a[1], j) {
        assert(bit(a[1], j) && piece_reaches(1, j, occ, k));
    } else if bit(black_pawn_bb(k) & a[0], j) {
        assert(bit(a[0], j) && piece_reaches(0, j, occ, k));
    } else if bit(king_bb(k) & a[5], j) {
        assert(bit(a[5], j) && piece_reaches(5, j, occ, k));
    } else if bit(rook_bb(k, occ) & (a[3] | a[4]), j) {
        lemma_rook_attack_symmetric(k, occ, j);
        if bit(a[3], j) {
            assert(piece_reaches(3, j, occ, k));
        } else {
            assert(bit(a[4], j) && piece_reaches(4, j, occ, k));
        }
    } else {
        assert(bit(bishop_bb(k, occ) & (a[2] | a[4]), j));
        lemma_bishop_attack_symmetric(k, occ, j);
        if bit(a[2], j) {
            assert(piece_reaches(2, j, occ, k));
        } else {
            assert(bit(a[4], j) && piece_reaches(4, j, occ, k));
        }
    }
}

/// The side to move is in check exactly when a piece of the other side reaches its king's
/// square: a pawn by its diagonal capture towards the king's side of the board, a knight or a
/// king by its step, a bishop, rook or queen along a line with no piece in between.
pub proof fn law_in_check_geometry(a: Seq<u64>)
    requires
        a.len() == 15,
        has_own_king(a),
    ensures
        in_check_spec(a) <==> opponent_reaches(a, own_king_sq(a)),
{
    let k = own_king_sq(a);
    let occ = occupied_of(a);
    if white_turn(a) {
        axiom_u64_trailing_zeros(a[5]);
    } else {
        axiom_u64_trailing_zeros(a[11]);
    }
    assert(0 <= k < 64);
    lemma_attack_sets(k, occ);
    if in_check_spec(a) {
        if white_turn(a) {
            lemma_black_attacker(a, k, occ);
        } else {
            lemma_white_attacker(a, k, occ);
        }
    }
    if opponent_reaches(a, k) {
        let (x, p) = choose|x: int, p: int|
            (if white_turn(a) {
                6 <= x < 12
            } else {
                0 <= x < 6
            }) && 0 <= p < 64 && #[trigger] bit(a[x], p) && piece_reaches(x, p, occ, k);
        lemma_attack_sets(p, occ);
        if white_turn(a) {
            lemma_black_attacks_back(a, x, p, k, occ);
        } else {
            lemma_white_attacks_back(a, x, p, k, occ);
        }
    }
}

} // verus!
