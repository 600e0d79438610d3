//! Every move that legal move generation returns leaves the mover's king unattacked.
use vstd::prelude::*;
use vstd::std_specs::bits::u64_trailing_zeros;
use crate::bitboard::{bit, square_bb, group_bits, lemma_bits_ext, lemma_test_square,
    lemma_trailing_zeros_single, lemma_bb_of_exists, squares, lemma_bits_from_bounds};
use crate::attacks::{
    rank_of, file_of, valid_sq, ray_sq, ray_dist, on_ray, clear_path, slide, rook_attack,
    bishop_attack, rook_bb, bishop_bb, step_r, step_f, dir_df, king_step, knight_bb, king_bb,
    white_pawn_bb, black_pawn_bb, knight_step, white_pawn_attack, black_pawn_attack,
};
use crate::movegen::{attacked_by_opponent, leaves_king_safe, team_of, kingside_open,
    queenside_open, kingside_to, queenside_to, safe_moves, safe_king_steps, legal_king_moves,
    legal_castle_moves, legal_moves, other_moves_spec, king_moves_spec, single_moves};
use crate::board::{white_of, black_of, occupied_of, INFO, KING_W, KING_B, PAWN_W, PAWN_B,
    ROOK_W, ROOK_B, KNIGHT_W, KNIGHT_B, BISHOP_W, BISHOP_B, QUEEN_W, QUEEN_B, WHITE_KINGSIDE_RIGHTS, WHITE_QUEENSIDE_RIGHTS, BLACK_KINGSIDE_RIGHTS,
    BLACK_QUEENSIDE_RIGHTS};
use crate::fen::{white_turn, own_king_sq, has_own_king, first_hit, xor_first,
    make_move_white_spec, make_move_black_spec, make_move_spec, attacked_by_black,
    attacked_by_white};
use crate::moves::{Prom, move_code, lemma_move_code};
use crate::roundtrip::pieces_disjoint;

verus! {

broadcast use group_bits;

/// A square on a ray is never the ray's origin.
proof fn lemma_ray_sq_ne(s: int, d: int, k: int)
    requires
        0 <= d < 8,
        k >= 1,
    ensures
        ray_sq(s, d, k) != s,
{
    assert(s == rank_of(s) * 8 + file_of(s));
}

/// A slide depends only on the squares strictly between its ends.
proof fn lemma_slide_agree(s: int, d: int, t: int, o1: u64, o2: u64)
    requires
        forall|k: int|
            1 <= k < ray_dist(s, d, t) ==> bit(o1, #[trigger] ray_sq(s, d, k)) == bit(
                o2,
                ray_sq(s, d, k),
            ),
    ensures
        slide(s, d, o1, t) == slide(s, d, o2, t),
{
    let m = ray_dist(s, d, t);
    if clear_path(s, d, m, o1) {
        assert forall|k: int| 1 <= k < m implies !#[trigger] bit(o2, ray_sq(s, d, k)) by {
            assert(!bit(o1, ray_sq(s, d, k)));
        }
    }
    if clear_path(s, d, m, o2) {
        assert forall|k: int| 1 <= k < m implies !#[trigger] bit(o1, ray_sq(s, d, k)) by {
            assert(!bit(o2, ray_sq(s, d, k)));
        }
    }
}

/// What a slider on `s` attacks does not depend on whether `s` itself is occupied.
pub proof fn lemma_attacks_ignore_origin(s: int, o1: u64, o2: u64)
    requires
        forall|j: int| j != s ==> bit(o1, j) == bit(o2, j),
    ensures
        rook_bb(s, o1) == rook_bb(s, o2),
        bishop_bb(s, o1) == bishop_bb(s, o2),
{
    assert forall|d: int, t: int| 0 <= d < 8 implies #[trigger] slide(s, d, o1, t) == slide(
        s,
        d,
        o2,
        t,
    ) by {
        assert forall|k: int| 1 <= k < ray_dist(s, d, t) implies bit(
            o1,
            #[trigger] ray_sq(s, d, k),
        ) == bit(o2, ray_sq(s, d, k)) by {
            lemma_ray_sq_ne(s, d, k);
        }
        lemma_slide_agree(s, d, t, o1, o2);
    }
    assert((|t: int| rook_attack(s, o1, t)) =~= (|t: int| rook_attack(s, o2, t)));
    assert((|t: int| bishop_attack(s, o1, t)) =~= (|t: int| bishop_attack(s, o2, t)));
}

/// A position the move rules are meant for: no two pieces share a square, the side to move has
/// exactly one king, and it holds castling rights only while that king stands on its starting
/// square.
pub open spec fn sound_position(a: Seq<u64>) -> bool {
    let w = white_turn(a);
    let info = a[INFO as int];
    let king = if w {
        a[KING_W as int]
    } else {
        a[KING_B as int]
    };
    &&& a.len() == 15
    &&& pieces_disjoint(a)
    &&& has_own_king(a)
    &&& king == square_bb(own_king_sq(a))
    &&& (w && (info & WHITE_KINGSIDE_RIGHTS != 0 || info & WHITE_QUEENSIDE_RIGHTS != 0)
        ==> own_king_sq(a) == 3)
    &&& (!w && (info & BLACK_KINGSIDE_RIGHTS != 0 || info & BLACK_QUEENSIDE_RIGHTS != 0)
        ==> own_king_sq(a) == 59)
}

/// The castling constants are the squares they name.
pub(crate) proof fn lemma_castle_constants()
    by (bit_vector)
    ensures
        0x02u64 == square_bb(1),
        0x20u64 == square_bb(5),
        0x0200_0000_0000_0000u64 == square_bb(57),
        0x2000_0000_0000_0000u64 == square_bb(61),
        0x05u64 == square_bb(0) | square_bb(2),
        0x90u64 == square_bb(7) | square_bb(4),
        0x0500_0000_0000_0000u64 == square_bb(56) | square_bb(58),
        0x9000_0000_0000_0000u64 == square_bb(63) | square_bb(60),
        0x06u64 == square_bb(1) | square_bb(2),
        0x70u64 == square_bb(4) | square_bb(5) | square_bb(6),
        0x0600_0000_0000_0000u64 == square_bb(57) | square_bb(58),
        0x7000_0000_0000_0000u64 == square_bb(60) | square_bb(61) | square_bb(62),
        0x01u64 == square_bb(0),
        0x80u64 == square_bb(7),
        0x0100_0000_0000_0000u64 == square_bb(56),
        0x8000_0000_0000_0000u64 == square_bb(63),
{
}

/// Distinct squares have distinct bitboards.
pub(crate) proof fn lemma_square_bb_injective(i: int, j: int)
    requires
        0 <= i < 64,
        0 <= j < 64,
        square_bb(i) == square_bb(j),
    ensures
        i == j,
{
    assert(bit(square_bb(i), i));
}

/// The first piece bitboard, from `i` on, that holds square `t`, when only bitboard `x` does.
pub(crate) proof fn lemma_first_hit_only(a: Seq<u64>, t: int, x: int, i: int)
    requires
        0 <= i <= x < 12,
        0 <= t < 64,
        bit(a[x], t),
        forall|p: int| 0 <= p < 12 && p != x ==> !bit(#[trigger] a[p], t),
    ensures
        first_hit(a, square_bb(t), i) == x,
    decreases x - i,
{
    lemma_test_square(a[i], t);
    if i < x {
        lemma_first_hit_only(a, t, x, i + 1);
    }
}

/// No piece bitboard from `i` on holds square `t`.
pub(crate) proof fn lemma_first_hit_none(a: Seq<u64>, t: int, i: int)
    requires
        0 <= i <= 12,
        0 <= t < 64,
        forall|p: int| i <= p < 12 ==> !bit(#[trigger] a[p], t),
    ensures
        first_hit(a, square_bb(t), i) == 12,
    decreases 12 - i,
{
    if i < 12 {
        lemma_test_square(a[i], t);
        lemma_first_hit_none(a, t, i + 1);
    }
}

/// Flipping `flip` in the bitboard that alone holds square `t`.
pub(crate) proof fn lemma_xor_first_square(a: Seq<u64>, t: int, flip: u64)
    requires
        a.len() == 15,
        0 <= t < 64,
        pieces_disjoint(a),
    ensures
        forall|p: int, j: int|
            0 <= p < 15 ==> #[trigger] bit(xor_first(a, square_bb(t), flip)[p], j) == if 0 <= p
                < 12 && bit(a[p], t) {
                bit(a[p], j) != bit(flip, j)
            } else {
                bit(a[p], j)
            },
        xor_first(a, square_bb(t), flip).len() == 15,
{
    if exists|x: int| 0 <= x < 12 && bit(a[x], t) {
        let x = choose|x: int| 0 <= x < 12 && bit(a[x], t);
        assert forall|p: int| 0 <= p < 12 && p != x implies !bit(#[trigger] a[p], t) by {
            if p < x {
                assert(!(bit(a[p], t) && bit(a[x], t)));
            } else {
                assert(!(bit(a[x], t) && bit(a[p], t)));
            }
        }
        lemma_first_hit_only(a, t, x, 0);
    } else {
        lemma_first_hit_none(a, t, 0);
    }
}

/// Removing squares from piece bitboards keeps them disjoint.
pub(crate) proof fn lemma_disjoint_shrink(a: Seq<u64>, b: Seq<u64>)
    requires
        pieces_disjoint(a),
        forall|p: int, j: int| 0 <= p < 12 ==> (#[trigger] bit(b[p], j) ==> bit(a[p], j)),
    ensures
        pieces_disjoint(b),
{
    assert forall|p: int, q: int, j: int| 0 <= p < q < 12 implies !(#[trigger] bit(b[p], j)
        && #[trigger] bit(b[q], j)) by {
        if bit(b[p], j) && bit(b[q], j) {
            assert(bit(a[p], j) && bit(a[q], j));
        }
    }
}

/// White's king steps from its square to `t`, which no white piece holds: the king lands on
/// `t`, the black piece there (if any) leaves, and nothing else changes on the board.
pub(crate) proof fn lemma_king_step_white(a: Seq<u64>, t: int)
    requires
        sound_position(a),
        white_turn(a),
        king_step(own_king_sq(a), t),
        !bit(white_of(a), t),
    ensures
        ({
            let b = make_move_white_spec(a, move_code(own_king_sq(a), t));
            &&& b.len() == 15
            &&& b[KING_W as int] == square_bb(t)
            &&& forall|x: int, j: int| 6 <= x < 12 ==> (#[trigger] bit(b[x], j) ==> bit(a[x], j))
            &&& forall|x: int, j: int|
                6 <= x < 12 && j != t ==> (#[trigger] bit(b[x], j) == bit(a[x], j))
            &&& forall|j: int|
                j != t ==> (#[trigger] bit(occupied_of(b), j) == bit(
                    occupied_of(a) & !a[KING_W as int],
                    j,
                ))
        }),
{
    let k = own_king_sq(a);
    let m = move_code(k, t);
    lemma_move_code(k, t, Prom::NoProm);
    lemma_castle_constants();
    let from = square_bb(k);
    let to = square_bb(t);
    let info = a[INFO as int];
    if info & WHITE_KINGSIDE_RIGHTS != 0 && to == 0x02u64 {
        lemma_square_bb_injective(t, 1);
    }
    if info & WHITE_QUEENSIDE_RIGHTS != 0 && to == 0x20u64 {
        lemma_square_bb_injective(t, 5);
    }
    assert(bit(a[KING_W as int], k));
    lemma_test_square(a[KING_W as int], k);
    lemma_test_square(a[PAWN_W as int], k);
    assert(!(bit(a[PAWN_W as int], k) && bit(a[KING_W as int], k)));
    lemma_xor_first_square(a, t, to);
    let a3 = xor_first(a, to, to);
    assert forall|p: int| 0 <= p < 6 implies !bit(#[trigger] a[p], t) by {
        assert(!bit(white_of(a), t));
    }
    lemma_disjoint_shrink(a, a3);
    lemma_xor_first_square(a3, k, from | to);
    let a4 = xor_first(a3, from, from | to);
    let b = make_move_white_spec(a, m);
    assert(b == a4.update(INFO as int, b[INFO as int]));
    assert forall|j: int| bit(a4[KING_W as int], j) == bit(square_bb(t), j) by {
        assert(bit(a[KING_W as int], j) <==> j == k);
    }
    lemma_bits_ext(a4[KING_W as int], square_bb(t));
    assert forall|j: int| j != t implies (#[trigger] bit(occupied_of(b), j) == bit(
        occupied_of(a) & !a[KING_W as int],
        j,
    )) by {
        if j == k {
            assert forall|p: int| 0 <= p < 12 && p != KING_W as int implies !bit(
                #[trigger] a[p],
                k,
            ) by {
                if p < 5 {
                    assert(!(bit(a[p], k) && bit(a[KING_W as int], k)));
                } else {
                    assert(!(bit(a[KING_W as int], k) && bit(a[p], k)));
                }
            }
        }
    }
}

/// Black's king steps from its square to `t`, which no black piece holds: the king lands on
/// `t`, the white piece there (if any) leaves, and nothing else changes on the board.
pub(crate) proof fn lemma_king_step_black(a: Seq<u64>, t: int)
    requires
        sound_position(a),
        !white_turn(a),
        king_step(own_king_sq(a), t),
        !bit(black_of(a), t),
    ensures
        ({
            let b = make_move_black_spec(a, move_code(own_king_sq(a), t));
            &&& b.len() == 15
            &&& b[KING_B as int] == square_bb(t)
            &&& forall|x: int, j: int| 0 <= x < 6 ==> (#[trigger] bit(b[x], j) ==> bit(a[x], j))
            &&& forall|x: int, j: int|
                0 <= x < 6 && j != t ==> (#[trigger] bit(b[x], j) == bit(a[x], j))
            &&& forall|j: int|
                j != t ==> (#[trigger] bit(occupied_of(b), j) == bit(
                    occupied_of(a) & !a[KING_B as int],
                    j,
                ))
        }),
{
    let k = own_king_sq(a);
    let m = move_code(k, t);
    lemma_move_code(k, t, Prom::NoProm);
    lemma_castle_constants();
    let from = square_bb(k);
    let to = square_bb(t);
    let info = a[INFO as int];
    if info & BLACK_KINGSIDE_RIGHTS != 0 && to == 0x0200_0000_0000_0000u64 {
        lemma_square_bb_injective(t, 57);
    }
    if info & BLACK_QUEENSIDE_RIGHTS != 0 && to == 0x2000_0000_0000_0000u64 {
        lemma_square_bb_injective(t, 61);
    }
    assert(bit(a[KING_B as int], k));
    lemma_test_square(a[KING_B as int], k);
    lemma_test_square(a[PAWN_B as int], k);
    assert(!(bit(a[PAWN_B as int], k) && bit(a[KING_B as int], k)));
    lemma_xor_first_square(a, t, to);
    let a3 = xor_first(a, to, to);
    assert forall|p: int| 6 <= p < 12 implies !bit(#[trigger] a[p], t) by {
        assert(!bit(black_of(a), t));
    }
    lemma_disjoint_shrink(a, a3);
    lemma_xor_first_square(a3, k, from | to);
    let a4 = xor_first(a3, from, from | to);
    let b = make_move_black_spec(a, m);
    assert(b == a4.update(INFO as int, b[INFO as int]));
    assert forall|j: int| bit(a4[KING_B as int], j) == bit(square_bb(t), j) by {
        assert(bit(a[KING_B as int], j) <==> j == k);
    }
    lemma_bits_ext(a4[KING_B as int], square_bb(t));
    assert forall|j: int| j != t implies (#[trigger] bit(occupied_of(b), j) == bit(
        occupied_of(a) & !a[KING_B as int],
        j,
    )) by {
        if j == k {
            assert forall|p: int| 0 <= p < 12 && p != KING_B as int implies !bit(
                #[trigger] a[p],
                k,
            ) by {
                assert(!(bit(a[p], k) && bit(a[KING_B as int], k)));
            }
        }
    }
}

/// Fewer black pieces, sliding along no more squares, attack no more.
proof fn lemma_fewer_black_attackers(a: Seq<u64>, b: Seq<u64>, i: int, oa: u64, ob: u64)
    requires
        forall|x: int, j: int| 6 <= x < 12 ==> (#[trigger] bit(b[x], j) ==> bit(a[x], j)),
        forall|j: int| #[trigger] bit(rook_bb(i, ob), j) ==> bit(rook_bb(i, oa), j),
        forall|j: int| #[trigger] bit(bishop_bb(i, ob), j) ==> bit(bishop_bb(i, oa), j),
    ensures
        attacked_by_black(b, i, ob) ==> attacked_by_black(a, i, oa),
{
    let eb = (knight_bb(i) & b[KNIGHT_B as int]) | (white_pawn_bb(i) & b[PAWN_B as int]) | (
    king_bb(i) & b[KING_B as int]) | (rook_bb(i, ob) & (b[ROOK_B as int] | b[QUEEN_B as int]))
        | (bishop_bb(i, ob) & (b[BISHOP_B as int] | b[QUEEN_B as int]));
    let ea = (knight_bb(i) & a[KNIGHT_B as int]) | (white_pawn_bb(i) & a[PAWN_B as int]) | (
    king_bb(i) & a[KING_B as int]) | (rook_bb(i, oa) & (a[ROOK_B as int] | a[QUEEN_B as int]))
        | (bishop_bb(i, oa) & (a[BISHOP_B as int] | a[QUEEN_B as int]));
    if eb != 0 && ea == 0 {
        assert forall|j: int| 0 <= j < 64 implies bit(eb, j) == bit(0u64, j) by {
            if bit(eb, j) {
                assert(bit(ea, j));
            }
        }
        lemma_bits_ext(eb, 0);
    }
}

/// Fewer white pieces, sliding along no more squares, attack no more.
proof fn lemma_fewer_white_attackers(a: Seq<u64>, b: Seq<u64>, i: int, oa: u64, ob: u64)
    requires
        forall|x: int, j: int| 0 <= x < 6 ==> (#[trigger] bit(b[x], j) ==> bit(a[x], j)),
        forall|j: int| #[trigger] bit(rook_bb(i, ob), j) ==> bit(rook_bb(i, oa), j),
        forall|j: int| #[trigger] bit(bishop_bb(i, ob), j) ==> bit(bishop_bb(i, oa), j),
    ensures
        attacked_by_white(b, i, ob) ==> attacked_by_white(a, i, oa),
{
    let eb = (knight_bb(i) & b[KNIGHT_W as int]) | (black_pawn_bb(i) & b[PAWN_W as int]) | (
    king_bb(i) & b[KING_W as int]) | (rook_bb(i, ob) & (b[ROOK_W as int] | b[QUEEN_W as int]))
        | (bishop_bb(i, ob) & (b[BISHOP_W as int] | b[QUEEN_W as int]));
    let ea = (knight_bb(i) & a[KNIGHT_W as int]) | (black_pawn_bb(i) & a[PAWN_W as int]) | (
    king_bb(i) & a[KING_W as int]) | (rook_bb(i, oa) & (a[ROOK_W as int] | a[QUEEN_W as int]))
        | (bishop_bb(i, oa) & (a[BISHOP_W as int] | a[QUEEN_W as int]));
    if eb != 0 && ea == 0 {
        assert forall|j: int| 0 <= j < 64 implies bit(eb, j) == bit(0u64, j) by {
            if bit(eb, j) {
                assert(bit(ea, j));
            }
        }
        lemma_bits_ext(eb, 0);
    }
}

/// The king of the side to move.
pub open spec fn own_king(a: Seq<u64>) -> u64 {
    if white_turn(a) {
        a[KING_W as int]
    } else {
        a[KING_B as int]
    }
}

/// A king step onto a square that its own pieces do not hold and that the opponent does not
/// attack once the king has left its square leaves the king unattacked.
proof fn lemma_king_step_safe(a: Seq<u64>, t: int)
    requires
        sound_position(a),
        king_step(own_king_sq(a), t),
        !bit(team_of(a), t),
        !attacked_by_opponent(a, white_turn(a), t, occupied_of(a) & !own_king(a)),
    ensures
        leaves_king_safe(a, move_code(own_king_sq(a), t)),
{
    let m = move_code(own_king_sq(a), t);
    let b = make_move_spec(a, m);
    let occ = occupied_of(a) & !own_king(a);
    lemma_trailing_zeros_single(t);
    if white_turn(a) {
        lemma_king_step_white(a, t);
        lemma_attacks_ignore_origin(t, occupied_of(b), occ);
        lemma_fewer_black_attackers(a, b, t, occ, occupied_of(b));
        assert(square_bb(t) != 0) by {
            assert(bit(square_bb(t), t));
        }
    } else {
        lemma_king_step_black(a, t);
        lemma_attacks_ignore_origin(t, occupied_of(b), occ);
        lemma_fewer_white_attackers(a, b, t, occ, occupied_of(b));
        assert(square_bb(t) != 0) by {
            assert(bit(square_bb(t), t));
        }
    }
}

/// The square a king lands on when castling (g1, c1, g8 or c8), with the rook landing next to
/// it in direction `dp`: a rook or bishop standing there attacks nothing more once the back
/// rank has changed around it, as long as the rook's square is occupied and every other rank,
/// and the square beyond it on the long side, is unchanged.
proof fn lemma_castle_square_attacks(s: int, dp: int, o1: u64, o2: u64)
    requires
        s == 1 || s == 5 || s == 57 || s == 61,
        dp == (if s == 1 || s == 57 {
            2int
        } else {
            3int
        }),
        bit(o2, ray_sq(s, dp, 1)),
        forall|j: int| rank_of(j) != rank_of(s) ==> bit(o1, j) == bit(o2, j),
        s == 5 ==> bit(o1, 6) == bit(o2, 6),
        s == 61 ==> bit(o1, 62) == bit(o2, 62),
    ensures
        forall|t: int| #[trigger] rook_attack(s, o2, t) ==> rook_attack(s, o1, t),
        forall|t: int| #[trigger] bishop_attack(s, o2, t) == bishop_attack(s, o1, t),
{
    assert forall|d: int, t: int| 0 <= d < 8 && d != dp && d != 5 - dp implies #[trigger] slide(
        s,
        d,
        o2,
        t,
    ) == slide(s, d, o1, t) by {
        assert forall|k: int| 1 <= k < ray_dist(s, d, t) && on_ray(s, d, t) && valid_sq(t)
            implies bit(o2, #[trigger] ray_sq(s, d, k)) == bit(o1, ray_sq(s, d, k)) by {
            assert(rank_of(ray_sq(s, d, k)) != rank_of(s));
        }
        if !(on_ray(s, d, t) && valid_sq(t)) {
        } else {
            lemma_slide_agree(s, d, t, o2, o1);
        }
    }
    assert forall|t: int| #[trigger] slide(s, dp, o2, t) implies slide(s, dp, o1, t) by {
        let m = ray_dist(s, dp, t);
        if m >= 2 {
            assert(!bit(o2, ray_sq(s, dp, 1)));
        }
    }
    assert forall|t: int| #[trigger] slide(s, 5 - dp, o2, t) == slide(s, 5 - dp, o1, t) by {
        let d = 5 - dp;
        if on_ray(s, d, t) && valid_sq(t) {
            assert forall|k: int| 1 <= k < ray_dist(s, d, t) implies bit(
                o2,
                #[trigger] ray_sq(s, d, k),
            ) == bit(o1, ray_sq(s, d, k)) by {
                assert(k == 1);
            }
            lemma_slide_agree(s, d, t, o2, o1);
        }
    }
}

/// White castles, the king going from e1 to `t` (g1 or c1): the king lands on `t`, the rook
/// next to it, black's pieces stay, and only the first rank changes.
pub(crate) proof fn lemma_castle_white(a: Seq<u64>, t: int)
    requires
        sound_position(a),
        white_turn(a),
        t == 1 || t == 5,
        t == 1 ==> a[INFO as int] & WHITE_KINGSIDE_RIGHTS != 0 && occupied_of(a) & 0x06 == 0,
        t == 5 ==> a[INFO as int] & WHITE_QUEENSIDE_RIGHTS != 0 && occupied_of(a) & 0x70 == 0,
    ensures
        ({
            let b = make_move_white_spec(a, move_code(3, t));
            &&& b[KING_W as int] == square_bb(t)
            &&& forall|x: int, j: int| 6 <= x < 12 ==> (#[trigger] bit(b[x], j) == bit(a[x], j))
            &&& forall|j: int|
                rank_of(j) != 0 ==> (#[trigger] bit(occupied_of(b), j) == bit(occupied_of(a), j))
            &&& bit(occupied_of(b), if t == 1 { 2int } else { 4int })
            &&& (t == 5 ==> bit(occupied_of(b), 6) == bit(occupied_of(a), 6))
        }),
{
    let m = move_code(3, t);
    lemma_move_code(3, t, Prom::NoProm);
    lemma_castle_constants();
    let info = a[INFO as int];
    assert(own_king_sq(a) == 3);
    let from = square_bb(3);
    let to = square_bb(t);
    let squares: u64 = if t == 1 { 0x06 } else { 0x70 };
    let mask: u64 = if t == 1 { 0x05 } else { 0x90 };
    let p: int = if t == 1 { 2 } else { 4 };
    assert(bit(squares, t) && bit(squares, p));
    assert(!bit(occupied_of(a) & squares, t) && !bit(occupied_of(a) & squares, p));
    assert(!bit(occupied_of(a), t) && !bit(occupied_of(a), p));
    if t == 5 {
        assert(to != 0x02u64) by {
            assert(bit(to, 5));
            assert(!bit(0x02u64, 5));
        }
    }
    let a1 = a.update(ROOK_W as int, a[ROOK_W as int] ^ mask);
    assert(bit(a[KING_W as int], 3));
    lemma_test_square(a[KING_W as int], 3);
    lemma_test_square(a[PAWN_W as int], 3);
    assert(!(bit(a[PAWN_W as int], 3) && bit(a[KING_W as int], 3)));
    assert forall|q: int| 0 <= q < 12 implies !bit(#[trigger] a1[q], t) by {
        assert(!bit(occupied_of(a), t));
    }
    lemma_first_hit_none(a1, t, 0);
    assert forall|q: int| 0 <= q < 12 && q != KING_W as int implies !bit(#[trigger] a1[q], 3) by {
        if q < 5 {
            assert(!(bit(a[q], 3) && bit(a[KING_W as int], 3)));
        } else {
            assert(!(bit(a[KING_W as int], 3) && bit(a[q], 3)));
        }
    }
    lemma_first_hit_only(a1, 3, KING_W as int, 0);
    let a4 = a1.update(KING_W as int, a1[KING_W as int] ^ (from | to));
    let b = make_move_white_spec(a, m);
    assert(b == a4.update(INFO as int, b[INFO as int]));
    assert forall|j: int| bit(a4[KING_W as int], j) == bit(square_bb(t), j) by {
        assert(bit(a[KING_W as int], j) <==> j == 3);
    }
    lemma_bits_ext(a4[KING_W as int], square_bb(t));
    assert(bit(b[ROOK_W as int], p));
}

/// Black castles, the king going from e8 to `t` (g8 or c8): the king lands on `t`, the rook
/// next to it, white's pieces stay, and only the eighth rank changes.
pub(crate) proof fn lemma_castle_black(a: Seq<u64>, t: int)
    requires
        sound_position(a),
        !white_turn(a),
        t == 57 || t == 61,
        t == 57 ==> a[INFO as int] & BLACK_KINGSIDE_RIGHTS != 0 && occupied_of(a)
            & 0x0600_0000_0000_0000 == 0,
        t == 61 ==> a[INFO as int] & BLACK_QUEENSIDE_RIGHTS != 0 && occupied_of(a)
            & 0x7000_0000_0000_0000 == 0,
    ensures
        ({
            let b = make_move_black_spec(a, move_code(59, t));
            &&& b[KING_B as int] == square_bb(t)
            &&& forall|x: int, j: int| 0 <= x < 6 ==> (#[trigger] bit(b[x], j) == bit(a[x], j))
            &&& forall|j: int|
                rank_of(j) != 7 ==> (#[trigger] bit(occupied_of(b), j) == bit(occupied_of(a), j))
            &&& bit(occupied_of(b), if t == 57 { 58int } else { 60int })
            &&& (t == 61 ==> bit(occupied_of(b), 62) == bit(occupied_of(a), 62))
        }),
{
    let m = move_code(59, t);
    lemma_move_code(59, t, Prom::NoProm);
    lemma_castle_constants();
    let info = a[INFO as int];
    assert(own_king_sq(a) == 59);
    let from = square_bb(59);
    let to = square_bb(t);
    let squares: u64 = if t == 57 { 0x0600_0000_0000_0000 } else { 0x7000_0000_0000_0000 };
    let mask: u64 = if t == 57 { 0x0500_0000_0000_0000 } else { 0x9000_0000_0000_0000 };
    let p: int = if t == 57 { 58 } else { 60 };
    assert(bit(squares, t) && bit(squares, p));
    assert(!bit(occupied_of(a) & squares, t) && !bit(occupied_of(a) & squares, p));
    assert(!bit(occupied_of(a), t) && !bit(occupied_of(a), p));
    if t == 61 {
        assert(to != 0x0200_0000_0000_0000u64) by {
            assert(bit(to, 61));
            assert(!bit(0x0200_0000_0000_0000u64, 61));
        }
    }
    let a1 = a.update(ROOK_B as int, a[ROOK_B as int] ^ mask);
    assert(bit(a[KING_B as int], 59));
    lemma_test_square(a[KING_B as int], 59);
    lemma_test_square(a[PAWN_B as int], 59);
    assert(!(bit(a[PAWN_B as int], 59) && bit(a[KING_B as int], 59)));
    assert forall|q: int| 0 <= q < 12 implies !bit(#[trigger] a1[q], t) by {
        assert(!bit(occupied_of(a), t));
    }
    lemma_first_hit_none(a1, t, 0);
    assert forall|q: int| 0 <= q < 12 && q != KING_B as int implies !bit(#[trigger] a1[q], 59)
        by {
        assert(!(bit(a[q], 59) && bit(a[KING_B as int], 59)));
    }
    lemma_first_hit_only(a1, 59, KING_B as int, 0);
    let a4 = a1.update(KING_B as int, a1[KING_B as int] ^ (from | to));
    let b = make_move_black_spec(a, m);
    assert(b == a4.update(INFO as int, b[INFO as int]));
    assert forall|j: int| bit(a4[KING_B as int], j) == bit(square_bb(t), j) by {
        assert(bit(a[KING_B as int], j) <==> j == 59);
    }
    lemma_bits_ext(a4[KING_B as int], square_bb(t));
    assert(bit(b[ROOK_B as int], p));
}

/// The squares of the rook and bishop attack bitboards.
pub(crate) proof fn lemma_slider_bits(s: int, o: u64)
    ensures
        forall|t: int| #[trigger] bit(rook_bb(s, o), t) <==> 0 <= t < 64 && rook_attack(s, o, t),
        forall|t: int|
            #[trigger] bit(bishop_bb(s, o), t) <==> 0 <= t < 64 && bishop_attack(s, o, t),
{
    lemma_bb_of_exists(|t: int| rook_attack(s, o, t));
    lemma_bb_of_exists(|t: int| bishop_attack(s, o, t));
}

/// Castling that the rights and empty squares allow, onto a square the opponent does not
/// attack, leaves the king unattacked.
proof fn lemma_castle_safe(a: Seq<u64>, t: int)
    requires
        sound_position(a),
        (t == kingside_to(white_turn(a)) && kingside_open(a)) || (t == queenside_to(
            white_turn(a),
        ) && queenside_open(a)),
        !attacked_by_opponent(a, white_turn(a), t, occupied_of(a)),
    ensures
        leaves_king_safe(a, move_code(own_king_sq(a), t)),
{
    let w = white_turn(a);
    let oa = occupied_of(a);
    lemma_trailing_zeros_single(t);
    assert(bit(square_bb(t), t));
    if w {
        lemma_castle_white(a, t);
        let b = make_move_white_spec(a, move_code(3, t));
        let ob = occupied_of(b);
        let dp: int = if t == 1 { 2 } else { 3 };
        lemma_castle_square_attacks(t, dp, oa, ob);
        lemma_slider_bits(t, oa);
        lemma_slider_bits(t, ob);
        lemma_fewer_black_attackers(a, b, t, oa, ob);
    } else {
        lemma_castle_black(a, t);
        let b = make_move_black_spec(a, move_code(59, t));
        let ob = occupied_of(b);
        let dp: int = if t == 57 { 2 } else { 3 };
        lemma_castle_square_attacks(t, dp, oa, ob);
        lemma_slider_bits(t, oa);
        lemma_slider_bits(t, ob);
        lemma_fewer_white_attackers(a, b, t, oa, ob);
    }
}

/// The moves that `safe_moves` keeps leave the king safe.
proof fn lemma_safe_moves_safe(a: Seq<u64>, ms: Seq<u16>, i: int)
    requires
        0 <= i < safe_moves(a, ms).len(),
    ensures
        leaves_king_safe(a, safe_moves(a, ms)[i]),
    decreases ms.len(),
{
    let rest = safe_moves(a, ms.drop_last());
    if i < rest.len() {
        lemma_safe_moves_safe(a, ms.drop_last(), i);
    }
}

/// The king steps that `safe_king_steps` keeps leave the king safe, when every target is a
/// king step onto a square its own pieces do not hold.
proof fn lemma_safe_king_steps_safe(a: Seq<u64>, ts: Seq<int>, i: int)
    requires
        sound_position(a),
        forall|j: int|
            0 <= j < ts.len() ==> king_step(own_king_sq(a), #[trigger] ts[j]) && !bit(
                team_of(a),
                ts[j],
            ),
        0 <= i < safe_king_steps(a, own_king_sq(a), ts, occupied_of(a) & !own_king(a)).len(),
    ensures
        leaves_king_safe(
            a,
            safe_king_steps(a, own_king_sq(a), ts, occupied_of(a) & !own_king(a))[i],
        ),
    decreases ts.len(),
{
    let k = own_king_sq(a);
    let occ = occupied_of(a) & !own_king(a);
    let rest = safe_king_steps(a, k, ts.drop_last(), occ);
    if i < rest.len() {
        lemma_safe_king_steps_safe(a, ts.drop_last(), i);
    } else {
        let t = ts.last();
        assert(ts[ts.len() - 1] == t);
        lemma_king_step_safe(a, t);
    }
}

/// Every move that legal move generation returns leaves the mover's king unattacked: in a
/// position where no two pieces share a square, the side to move has one king, and castling
/// rights remain only while that king stands on its starting square.
pub proof fn law_legal_moves_leave_king_safe(a: Seq<u64>, i: int)
    requires
        sound_position(a),
        0 <= i < legal_moves(a).len(),
    ensures
        leaves_king_safe(a, legal_moves(a)[i]),
{
    reveal(legal_moves);
    let w = white_turn(a);
    let k = own_king_sq(a);
    let lk = legal_king_moves(a);
    let lc = legal_castle_moves(a);
    let so = safe_moves(a, other_moves_spec(a));
    assert(legal_moves(a) == lk + lc + so);
    if i < lk.len() {
        let targets = king_bb(k) & !team_of(a);
        lemma_bits_from_bounds(targets, 0);
        lemma_bb_of_exists(|t: int| king_step(k, t));
        assert forall|j: int| 0 <= j < squares(targets).len() implies king_step(
            k,
            #[trigger] squares(targets)[j],
        ) && !bit(team_of(a), squares(targets)[j]) by {
            assert(bit(targets, squares(targets)[j]));
        }
        assert(own_king(a) == (if w {
            a[KING_W as int]
        } else {
            a[KING_B as int]
        }));
        lemma_safe_king_steps_safe(a, squares(targets), i);
        assert(legal_moves(a)[i] == lk[i]);
    } else if i < lk.len() + lc.len() {
        let j = i - lk.len();
        assert(legal_moves(a)[i] == lc[j]);
        let occ = occupied_of(a);
        let cond_k = kingside_open(a) && !attacked_by_opponent(a, w, k, occ)
            && !attacked_by_opponent(a, w, crate::movegen::kingside_path(w).0, occ)
            && !attacked_by_opponent(a, w, crate::movegen::kingside_path(w).1, occ);
        if cond_k && j == 0 {
            lemma_castle_safe(a, kingside_to(w));
        } else {
            lemma_castle_safe(a, queenside_to(w));
        }
    } else {
        let j = i - lk.len() - lc.len();
        assert(legal_moves(a)[i] == so[j]);
        lemma_safe_moves_safe(a, other_moves_spec(a), j);
    }
}

/// No piece attacks the square it stands on.
proof fn lemma_attacks_exclude_origin(t: int, o: u64)
    ensures
        !bit(knight_bb(t), t),
        !bit(king_bb(t), t),
        !bit(white_pawn_bb(t), t),
        !bit(black_pawn_bb(t), t),
        !bit(rook_bb(t, o), t),
        !bit(bishop_bb(t, o), t),
{
    lemma_bb_of_exists(|x: int| knight_step(t, x));
    lemma_bb_of_exists(|x: int| king_step(t, x));
    lemma_bb_of_exists(|x: int| white_pawn_attack(t, x));
    lemma_bb_of_exists(|x: int| black_pawn_attack(t, x));
    lemma_slider_bits(t, o);
}

/// Black pieces that stay, except one standing on `t` itself, keep attacking `t`.
proof fn lemma_more_black_attackers(a: Seq<u64>, b: Seq<u64>, t: int, o: u64)
    requires
        forall|x: int, j: int|
            6 <= x < 12 && j != t ==> (#[trigger] bit(b[x], j) == bit(a[x], j)),
    ensures
        attacked_by_black(a, t, o) ==> attacked_by_black(b, t, o),
{
    lemma_attacks_exclude_origin(t, o);
    let ea = (knight_bb(t) & a[KNIGHT_B as int]) | (white_pawn_bb(t) & a[PAWN_B as int]) | (
    king_bb(t) & a[KING_B as int]) | (rook_bb(t, o) & (a[ROOK_B as int] | a[QUEEN_B as int]))
        | (bishop_bb(t, o) & (a[BISHOP_B as int] | a[QUEEN_B as int]));
    let eb = (knight_bb(t) & b[KNIGHT_B as int]) | (white_pawn_bb(t) & b[PAWN_B as int]) | (
    king_bb(t) & b[KING_B as int]) | (rook_bb(t, o) & (b[ROOK_B as int] | b[QUEEN_B as int]))
        | (bishop_bb(t, o) & (b[BISHOP_B as int] | b[QUEEN_B as int]));
    if ea != 0 && eb == 0 {
        assert forall|j: int| 0 <= j < 64 implies bit(ea, j) == bit(0u64, j) by {
            if bit(ea, j) {
                assert(j != t);
                assert(bit(eb, j));
            }
        }
        lemma_bits_ext(ea, 0);
    }
}

/// White pieces that stay, except one standing on `t` itself, keep attacking `t`.
proof fn lemma_more_white_attackers(a: Seq<u64>, b: Seq<u64>, t: int, o: u64)
    requires
        forall|x: int, j: int| 0 <= x < 6 && j != t ==> (#[trigger] bit(b[x], j) == bit(a[x], j)),
    ensures
        attacked_by_white(a, t, o) ==> attacked_by_white(b, t, o),
{
    lemma_attacks_exclude_origin(t, o);
    let ea = (knight_bb(t) & a[KNIGHT_W as int]) | (black_pawn_bb(t) & a[PAWN_W as int]) | (
    king_bb(t) & a[KING_W as int]) | (rook_bb(t, o) & (a[ROOK_W as int] | a[QUEEN_W as int]))
        | (bishop_bb(t, o) & (a[BISHOP_W as int] | a[QUEEN_W as int]));
    let eb = (knight_bb(t) & b[KNIGHT_W as int]) | (black_pawn_bb(t) & b[PAWN_W as int]) | (
    king_bb(t) & b[KING_W as int]) | (rook_bb(t, o) & (b[ROOK_W as int] | b[QUEEN_W as int]))
        | (bishop_bb(t, o) & (b[BISHOP_W as int] | b[QUEEN_W as int]));
    if ea != 0 && eb == 0 {
        assert forall|j: int| 0 <= j < 64 implies bit(ea, j) == bit(0u64, j) by {
            if bit(ea, j) {
                assert(j != t);
                assert(bit(eb, j));
            }
        }
        lemma_bits_ext(ea, 0);
    }
}

/// A king step that leaves the king unattacked goes to a square the opponent does not attack
/// once the king has left its square.
proof fn lemma_king_step_converse(a: Seq<u64>, t: int)
    requires
        sound_position(a),
        king_step(own_king_sq(a), t),
        !bit(team_of(a), t),
        leaves_king_safe(a, move_code(own_king_sq(a), t)),
    ensures
        !attacked_by_opponent(a, white_turn(a), t, occupied_of(a) & !own_king(a)),
{
    let m = move_code(own_king_sq(a), t);
    let b = make_move_spec(a, m);
    let occ = occupied_of(a) & !own_king(a);
    lemma_trailing_zeros_single(t);
    if white_turn(a) {
        lemma_king_step_white(a, t);
        lemma_attacks_ignore_origin(t, occupied_of(b), occ);
        lemma_more_black_attackers(a, b, t, occ);
    } else {
        lemma_king_step_black(a, t);
        lemma_attacks_ignore_origin(t, occupied_of(b), occ);
        lemma_more_white_attackers(a, b, t, occ);
    }
}

/// The moves from `from` to the squares `ts`, in order.
proof fn lemma_single_moves_at(from: int, ts: Seq<int>)
    ensures
        single_moves(from, ts).len() == ts.len(),
        forall|i: int|
            0 <= i < ts.len() ==> #[trigger] single_moves(from, ts)[i] == move_code(from, ts[i]),
    decreases ts.len(),
{
    if ts.len() > 0 {
        lemma_single_moves_at(from, ts.drop_last());
    }
}

/// A king step to an unattacked square is kept by `safe_king_steps`.
proof fn lemma_safe_king_steps_keep(a: Seq<u64>, k: int, ts: Seq<int>, occ: u64, j: int)
    requires
        0 <= j < ts.len(),
        !attacked_by_opponent(a, white_turn(a), ts[j], occ),
    ensures
        safe_king_steps(a, k, ts, occ).contains(move_code(k, ts[j])),
    decreases ts.len(),
{
    let rest = safe_king_steps(a, k, ts.drop_last(), occ);
    if j < ts.len() - 1 {
        lemma_safe_king_steps_keep(a, k, ts.drop_last(), occ, j);
        let w = choose|w: int| 0 <= w < rest.len() && rest[w] == move_code(k, ts[j]);
        if !attacked_by_opponent(a, white_turn(a), ts.last(), occ) {
            assert(rest.push(move_code(k, ts.last()))[w] == rest[w]);
        }
    } else {
        assert(ts.last() == ts[j]);
        assert(rest.push(move_code(k, ts[j]))[rest.len() as int] == move_code(k, ts[j]));
    }
}

/// A move that leaves the king safe is kept by `safe_moves`.
proof fn lemma_safe_moves_keep(a: Seq<u64>, ms: Seq<u16>, i: int)
    requires
        0 <= i < ms.len(),
        leaves_king_safe(a, ms[i]),
    ensures
        safe_moves(a, ms).contains(ms[i]),
    decreases ms.len(),
{
    let rest = safe_moves(a, ms.drop_last());
    if i < ms.len() - 1 {
        lemma_safe_moves_keep(a, ms.drop_last(), i);
        let w = choose|w: int| 0 <= w < rest.len() && rest[w] == ms[i];
        if leaves_king_safe(a, ms.last()) {
            assert(rest.push(ms.last())[w] == rest[w]);
        }
    } else {
        assert(rest.push(ms[i])[rest.len() as int] == ms[i]);
    }
}

/// Every pseudo-legal move other than castling that leaves the mover's king unattacked is
/// among the legal moves, in a position where no two pieces share a square, the side to move
/// has one king, and castling rights remain only while that king stands on its starting
/// square.
pub proof fn law_safe_moves_are_legal(a: Seq<u64>, m: u16)
    requires
        sound_position(a),
        king_moves_spec(a).contains(m) || other_moves_spec(a).contains(m),
        leaves_king_safe(a, m),
    ensures
        legal_moves(a).contains(m),
{
    reveal(legal_moves);
    let k = own_king_sq(a);
    let lk = legal_king_moves(a);
    let lc = legal_castle_moves(a);
    let so = safe_moves(a, other_moves_spec(a));
    assert(legal_moves(a) == lk + lc + so);
    if king_moves_spec(a).contains(m) {
        let targets = king_bb(k) & !team_of(a);
        let ts = squares(targets);
        lemma_single_moves_at(k, ts);
        let i = choose|i: int| 0 <= i < king_moves_spec(a).len() && king_moves_spec(a)[i] == m;
        let t = ts[i];
        assert(m == move_code(k, t));
        lemma_bits_from_bounds(targets, 0);
        assert(bit(targets, t));
        lemma_bb_of_exists(|x: int| king_step(k, x));
        lemma_king_step_converse(a, t);
        assert(own_king(a) == (if white_turn(a) {
            a[KING_W as int]
        } else {
            a[KING_B as int]
        }));
        lemma_safe_king_steps_keep(a, k, ts, occupied_of(a) & !own_king(a), i);
        let w = choose|w: int| 0 <= w < lk.len() && lk[w] == m;
        assert((lk + lc + so)[w] == m);
    } else {
        let ms = other_moves_spec(a);
        let i = choose|i: int| 0 <= i < ms.len() && ms[i] == m;
        lemma_safe_moves_keep(a, ms, i);
        let w = choose|w: int| 0 <= w < so.len() && so[w] == m;
        assert((lk + lc + so)[lk.len() + lc.len() + w] == m);
    }
}

} // verus!
