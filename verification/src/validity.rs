//! Valid positions, the positions that play reaches, and the proof that legal moves keep them
//! valid, so that perft can count from any of them.
use vstd::prelude::*;
use vstd::std_specs::bits::u64_trailing_zeros;
use crate::bitboard::{bit, square_bb, group_bits, squares, lemma_bits_from_bounds, lemma_bits_ext,
    lemma_test_square, lemma_trailing_zeros_single, lemma_bb_of_exists};
use crate::attacks::{
    rank_of, file_of, valid_sq, ray_sq, ray_dist, on_ray, slide, rook_attack, bishop_attack,
    step_r, step_f, dir_dr, dir_df, knight_bb, king_bb, white_pawn_bb, black_pawn_bb, rook_bb,
    bishop_bb, queen_bb, knight_step, king_step, white_pawn_attack, black_pawn_attack, queen_attack,
};
use crate::moves::{Prom, move_code, prom_bits, lemma_move_code};
use crate::movegen::{single_moves, promo_moves, promo_codes, piece_moves, pawn_moves,
    piece_attack_bb, pawn_targets, pawn_promotes, other_moves_spec, side_base, team_of, opps_of,
    leaves_king_safe, safe_moves, safe_king_steps, legal_moves, legal_king_moves,
    legal_castle_moves, kingside_open};
use crate::board::{occupied_of, white_of, black_of, INFO, KING_W, KING_B, PAWN_W, PAWN_B, ROOK_W,
    ROOK_B, KNIGHT_W, BISHOP_W, QUEEN_W, KNIGHT_B, BISHOP_B, QUEEN_B, WHITE_KINGSIDE_RIGHTS,
    WHITE_QUEENSIDE_RIGHTS, BLACK_KINGSIDE_RIGHTS, BLACK_QUEENSIDE_RIGHTS, ENPASSANT_FLAG,
    HALFMOVE_FLAG, FULLMOVE_FLAG, TURN_FLAG};
use crate::fen::{white_turn, attacked_by_white, attacked_by_black, make_move_white_spec,
    make_move_black_spec, make_move_spec, xor_first, promote, next_halfmove, own_king_sq};
use crate::perft::{perft_safe, perft_safe_all, perft_root_safe};
use crate::parsing::enpassant_of;
use crate::roundtrip::pieces_disjoint;
use crate::safety::{sound_position, own_king, law_legal_moves_leave_king_safe,
    lemma_xor_first_square, lemma_disjoint_shrink, lemma_square_bb_injective,
    lemma_castle_constants, lemma_first_hit_none, lemma_first_hit_only};

verus! {

broadcast use group_bits;

/// The direction opposite to direction `d`.
pub open spec fn reverse_dir(d: int) -> int {
    if d == 0 {
        1
    } else if d == 1 {
        0
    } else if d == 2 {
        3
    } else if d == 3 {
        2
    } else if d == 4 {
        7
    } else if d == 7 {
        4
    } else if d == 5 {
        6
    } else {
        5
    }
}

/// A slide from `s` to `t` is a slide from `t` back to `s`.
proof fn lemma_slide_symmetric(s: int, d: int, o: u64, t: int)
    requires
        0 <= d < 8,
        slide(s, d, o, t),
    ensures
        slide(t, reverse_dir(d), o, s),
{
    let e = reverse_dir(d);
    let m = ray_dist(s, d, t);
    assert(dir_dr(e) == -dir_dr(d) && dir_df(e) == -dir_df(d));
    assert(ray_dist(t, e, s) == m);
    assert forall|k: int| 1 <= k < m implies !#[trigger] bit(o, ray_sq(t, e, k)) by {
        assert(ray_sq(t, e, k) == ray_sq(s, d, m - k));
        assert(!bit(o, ray_sq(s, d, m - k)));
    }
}

/// A rook on `s` attacking `t` means a rook on `t` would attack `s`.
pub proof fn lemma_rook_attack_symmetric(s: int, o: u64, t: int)
    requires
        rook_attack(s, o, t),
    ensures
        rook_attack(t, o, s),
{
    if slide(s, 0, o, t) {
        lemma_slide_symmetric(s, 0, o, t);
    } else if slide(s, 1, o, t) {
        lemma_slide_symmetric(s, 1, o, t);
    } else if slide(s, 2, o, t) {
        lemma_slide_symmetric(s, 2, o, t);
    } else {
        lemma_slide_symmetric(s, 3, o, t);
    }
}

/// A bishop on `s` attacking `t` means a bishop on `t` would attack `s`.
pub proof fn lemma_bishop_attack_symmetric(s: int, o: u64, t: int)
    requires
        bishop_attack(s, o, t),
    ensures
        bishop_attack(t, o, s),
{
    if slide(s, 4, o, t) {
        lemma_slide_symmetric(s, 4, o, t);
    } else if slide(s, 5, o, t) {
        lemma_slide_symmetric(s, 5, o, t);
    } else if slide(s, 6, o, t) {
        lemma_slide_symmetric(s, 6, o, t);
    } else {
        lemma_slide_symmetric(s, 7, o, t);
    }
}

/// A move among `single_moves(from, ts)` goes to a square of `ts`.
proof fn lemma_single_moves_member(from: int, ts: Seq<int>, m: u16) -> (j: int)
    requires
        single_moves(from, ts).contains(m),
    ensures
        0 <= j < ts.len(),
        m == move_code(from, ts[j]),
    decreases ts.len(),
{
    let rest = single_moves(from, ts.drop_last());
    let i = choose|i: int| 0 <= i < single_moves(from, ts).len() && single_moves(from, ts)[i] == m;
    if i < rest.len() {
        assert(rest[i] == m);
        lemma_single_moves_member(from, ts.drop_last(), m)
    } else {
        ts.len() - 1
    }
}

/// A move among `promo_moves(from, ts)` goes to a square of `ts` with a promotion.
proof fn lemma_promo_moves_member(from: int, ts: Seq<int>, m: u16) -> (r: (int, Prom))
    requires
        promo_moves(from, ts).contains(m),
    ensures
        0 <= r.0 < ts.len(),
        r.1 != Prom::NoProm,
        m == move_code(from, ts[r.0]) | prom_bits(r.1),
    decreases ts.len(),
{
    let rest = promo_moves(from, ts.drop_last());
    let codes = promo_codes(from, ts.last());
    let i = choose|i: int| 0 <= i < promo_moves(from, ts).len() && promo_moves(from, ts)[i] == m;
    if i < rest.len() {
        assert(rest[i] == m);
        lemma_promo_moves_member(from, ts.drop_last(), m)
    } else {
        let k = i - rest.len();
        assert(codes[k] == m);
        let p = if k == 0 {
            Prom::Queen
        } else if k == 1 {
            Prom::Bishop
        } else if k == 2 {
            Prom::Knight
        } else {
            Prom::Rook
        };
        (ts.len() - 1, p)
    }
}

/// A move among the moves of pieces of one kind on `ps` starts on one of them and goes to a
/// square it attacks that `team` does not hold.
proof fn lemma_piece_moves_member(kind: int, ps: Seq<int>, team: u64, occ: u64, m: u16) -> (r: (
    int,
    int,
))
    requires
        piece_moves(kind, ps, team, occ).contains(m),
    ensures
        0 <= r.0 < ps.len(),
        0 <= r.1 < 64,
        bit(piece_attack_bb(kind, ps[r.0], occ) & !team, r.1),
        m == move_code(ps[r.0], r.1),
    decreases ps.len(),
{
    let rest = piece_moves(kind, ps.drop_last(), team, occ);
    let targets = piece_attack_bb(kind, ps.last(), occ) & !team;
    let last = single_moves(ps.last(), squares(targets));
    let i = choose|i: int|
        0 <= i < piece_moves(kind, ps, team, occ).len() && piece_moves(kind, ps, team, occ)[i] == m;
    if i < rest.len() {
        assert(rest[i] == m);
        lemma_piece_moves_member(kind, ps.drop_last(), team, occ, m)
    } else {
        assert(last[i - rest.len()] == m);
        let j = lemma_single_moves_member(ps.last(), squares(targets), m);
        lemma_bits_from_bounds(targets, 0);
        (ps.len() - 1, squares(targets)[j])
    }
}

/// A move among the pawn moves from `ps` starts on one of them and goes to one of its
/// targets, promoting exactly when the pawn stands on the rank before the last.
proof fn lemma_pawn_moves_member(
    white: bool,
    ps: Seq<int>,
    opps: u64,
    ep: u64,
    occ: u64,
    m: u16,
) -> (r: (int, int, Prom))
    requires
        pawn_moves(white, ps, opps, ep, occ).contains(m),
        forall|j: int| 0 <= j < ps.len() ==> 0 <= #[trigger] ps[j] < 64,
    ensures
        0 <= r.0 < ps.len(),
        0 <= r.1 < 64,
        bit(pawn_targets(white, ps[r.0], opps, ep, occ), r.1),
        m == move_code(ps[r.0], r.1) | prom_bits(r.2),
        pawn_promotes(white, ps[r.0]) <==> r.2 != Prom::NoProm,
    decreases ps.len(),
{
    let rest = pawn_moves(white, ps.drop_last(), opps, ep, occ);
    let p = ps.last();
    let targets = pawn_targets(white, p, opps, ep, occ);
    let ts = squares(targets);
    let i = choose|i: int|
        0 <= i < pawn_moves(white, ps, opps, ep, occ).len() && pawn_moves(white, ps, opps, ep, occ)[i]
            == m;
    if i < rest.len() {
        assert(rest[i] == m);
        assert forall|j: int| 0 <= j < ps.drop_last().len() implies 0 <= #[trigger] ps.drop_last()[j]
            < 64 by {
            assert(ps.drop_last()[j] == ps[j]);
        }
        lemma_pawn_moves_member(white, ps.drop_last(), opps, ep, occ, m)
    } else {
        lemma_bits_from_bounds(targets, 0);
        if pawn_promotes(white, p) {
            let tail = promo_moves(p, ts);
            assert(tail[i - rest.len()] == m);
            let (j, pr) = lemma_promo_moves_member(p, ts, m);
            (ps.len() - 1, ts[j], pr)
        } else {
            let tail = single_moves(p, ts);
            assert(tail[i - rest.len()] == m);
            let j = lemma_single_moves_member(p, ts, m);
            assert(0 <= p < 64 && 0 <= ts[j] < 64);
            crate::moves::lemma_move_code(p, ts[j], Prom::NoProm);
            (ps.len() - 1, ts[j], Prom::NoProm)
        }
    }
}

/// The bitboard holds exactly one square.
pub open spec fn single_square(b: u64) -> bool {
    b != 0 && b == square_bb(u64_trailing_zeros(b) as int)
}

/// A position that play can reach: no two pieces share a square, each side has one king,
/// castling rights remain only while the king and the rook stand on their starting squares,
/// an en passant square is empty and lies behind the pawn that just made its double step, and
/// the side that has just moved is not in check.
pub open spec fn valid_position(a: Seq<u64>) -> bool {
    let info = a[INFO as int];
    let e = info & ENPASSANT_FLAG;
    let occ = occupied_of(a);
    &&& a.len() == 15
    &&& pieces_disjoint(a)
    &&& single_square(a[KING_W as int])
    &&& single_square(a[KING_B as int])
    &&& (info & WHITE_KINGSIDE_RIGHTS != 0 ==> bit(a[KING_W as int], 3) && bit(a[ROOK_W as int], 0))
    &&& (info & WHITE_QUEENSIDE_RIGHTS != 0 ==> bit(a[KING_W as int], 3) && bit(a[ROOK_W as int], 7))
    &&& (info & BLACK_KINGSIDE_RIGHTS != 0 ==> bit(a[KING_B as int], 59) && bit(
        a[ROOK_B as int],
        56,
    ))
    &&& (info & BLACK_QUEENSIDE_RIGHTS != 0 ==> bit(a[KING_B as int], 59) && bit(
        a[ROOK_B as int],
        63,
    ))
    &&& (e < 64 ==> !bit(occ, e as int) && if white_turn(a) {
        40 <= e < 48 && bit(a[PAWN_B as int], e - 8)
    } else {
        16 <= e < 24 && bit(a[PAWN_W as int], e + 8)
    })
    &&& if white_turn(a) {
        !attacked_by_white(a, u64_trailing_zeros(a[KING_B as int]) as int, occ)
    } else {
        !attacked_by_black(a, u64_trailing_zeros(a[KING_W as int]) as int, occ)
    }
}

/// The piece that stands on the target square after white moves piece `x`, promoting to `pr`.
pub open spec fn placed_piece(x: int, pr: Prom) -> int {
    match pr {
        Prom::NoProm => x,
        Prom::Queen => 4,
        Prom::Bishop => 2,
        Prom::Knight => 1,
        Prom::Rook => 3,
    }
}

/// A square moved one rank down, and back up.
proof fn lemma_shift_rank(t: u64)
    by (bit_vector)
    requires
        8 <= t < 64,
    ensures
        (1u64 << t) >> 8u64 == 1u64 << ((t - 8) as u64),
        ((1u64 << ((t - 8) as u64)) << 8u64) == 1u64 << t,
{
}

/// What a white move other than castling does to the board of a valid position: piece `x`
/// leaves `s`, `t` holds the moved or promoted piece (a piece taken there leaves), a pawn taken
/// en passant leaves the square behind `t`, and every other square keeps its piece.
pub proof fn lemma_piece_move_white_bits(a: Seq<u64>, x: int, s: int, t: int, pr: Prom)
    requires
        valid_position(a),
        white_turn(a),
        0 <= x < 6,
        x == 5 ==> (a[INFO as int] & WHITE_KINGSIDE_RIGHTS != 0 ==> t != 1) && (a[INFO as int]
            & WHITE_QUEENSIDE_RIGHTS != 0 ==> t != 5),
        0 <= s < 64,
        0 <= t < 64,
        s != t,
        bit(a[x], s),
        !bit(white_of(a), t),
        pr != Prom::NoProm ==> x == 0,
    ensures
        ({
            let b = make_move_white_spec(a, move_code(s, t) | prom_bits(pr));
            let e = a[INFO as int] & ENPASSANT_FLAG;
            let ep_capture = x == 0 && e < 64 && e == t;
            &&& b.len() == 15
            &&& forall|p: int, j: int|
                0 <= p < 12 ==> #[trigger] bit(b[p], j) == if j == s {
                    false
                } else if j == t {
                    p == placed_piece(x, pr)
                } else if ep_capture && j == t - 8 {
                    false
                } else {
                    bit(a[p], j)
                }
        }),
{
    let m = move_code(s, t) | prom_bits(pr);
    lemma_move_code(s, t, pr);
    let info = a[INFO as int];
    let e = info & ENPASSANT_FLAG;
    let from = square_bb(s);
    let to = square_bb(t);
    let ep = enpassant_of(info);
    let ep_capture = x == 0 && e < 64 && e == t;
    assert(forall|p: int| 0 <= p < 12 && p != x ==> !bit(#[trigger] a[p], s)) by {
        assert forall|p: int| 0 <= p < 12 && p != x implies !bit(#[trigger] a[p], s) by {
            if p < x {
                assert(!(bit(a[p], s) && bit(a[x], s)));
            } else {
                assert(!(bit(a[x], s) && bit(a[p], s)));
            }
        }
    }
    lemma_test_square(a[KING_W as int], s);
    lemma_test_square(a[PAWN_W as int], s);
    lemma_castle_constants();
    if to == 0x02u64 {
        lemma_square_bb_injective(t, 1);
    }
    if to == 0x20u64 {
        lemma_square_bb_injective(t, 5);
    }
    assert(bit(to, t));
    if ep == to {
        if e >= 64 {
            assert(ep == 0u64);
        } else {
            lemma_square_bb_injective(e as int, t);
        }
    }
    if ep_capture {
        assert(ep == to);
    }
    assert forall|p: int| 0 <= p < 6 implies !bit(#[trigger] a[p], t) by {
        assert(!bit(white_of(a), t));
    }
    let a2 = if ep_capture {
        a.update(PAWN_B as int, a[PAWN_B as int] ^ (to >> 8u64))
    } else {
        a
    };
    if ep_capture {
        lemma_shift_rank(t as u64);
        assert(to >> 8u64 == square_bb(t - 8));
        assert(bit(a[PAWN_B as int], t - 8));
    }
    assert forall|p: int, j: int| 0 <= p < 15 implies #[trigger] bit(a2[p], j) == if ep_capture
        && p == PAWN_B as int && j == t - 8 {
        false
    } else {
        bit(a[p], j)
    } by {}
    lemma_disjoint_shrink(a, a2);
    lemma_xor_first_square(a2, t, to);
    let a3 = xor_first(a2, to, to);
    lemma_disjoint_shrink(a2, a3);
    lemma_xor_first_square(a3, s, from | to);
    let a4 = xor_first(a3, from, from | to);
    let a5 = promote(a4, 0, to, pr);
    let b = make_move_white_spec(a, m);
    assert(b == a5.update(INFO as int, b[INFO as int]));
    assert forall|p: int, j: int| 0 <= p < 12 implies #[trigger] bit(b[p], j) == if j == s {
        false
    } else if j == t {
        p == placed_piece(x, pr)
    } else if ep_capture && j == t - 8 {
        false
    } else {
        bit(a[p], j)
    } by {
        assert(bit(a4[p], j) == if j == s {
            false
        } else if j == t {
            p == x
        } else if ep_capture && j == t - 8 {
            false
        } else {
            bit(a[p], j)
        });
    }
}

/// The information word after a move: the en passant field, the turn and the rights come out
/// as they went in.
proof fn lemma_info_after(ep: u64, hm: u64, fm: u64, r1: bool, r2: bool, r3: bool, r4: bool)
    by (bit_vector)
    requires
        ep <= 64,
        hm & !0x1ff_ff00u64 == 0,
        fm & !0x1ff_ff00_0000u64 == 0,
    ensures
        ({
            let rights = (if r1 {
                0x200_0000_0000u64
            } else {
                0u64
            }) | (if r2 {
                0x400_0000_0000u64
            } else {
                0u64
            }) | (if r3 {
                0x800_0000_0000u64
            } else {
                0u64
            }) | (if r4 {
                0x1000_0000_0000u64
            } else {
                0u64
            });
            let w = ep | hm | fm | (if r1 {
                0x200_0000_0000u64
            } else {
                0u64
            }) | (if r2 {
                0x400_0000_0000u64
            } else {
                0u64
            }) | (if r3 {
                0x800_0000_0000u64
            } else {
                0u64
            }) | (if r4 {
                0x1000_0000_0000u64
            } else {
                0u64
            });
            let b = ep | 0x100_0000_0000u64 | hm | fm | (if r1 {
                0x200_0000_0000u64
            } else {
                0u64
            }) | (if r2 {
                0x400_0000_0000u64
            } else {
                0u64
            }) | (if r3 {
                0x800_0000_0000u64
            } else {
                0u64
            }) | (if r4 {
                0x1000_0000_0000u64
            } else {
                0u64
            });
            &&& w & 0x7f == ep
            &&& b & 0x7f == ep
            &&& (fm & 0x100_0000_0000u64 == 0 ==> w & 0x100_0000_0000u64 == 0)
            &&& b & 0x100_0000_0000u64 != 0
            &&& (w & 0x200_0000_0000u64 != 0) == r1
            &&& (w & 0x400_0000_0000u64 != 0) == r2
            &&& (w & 0x800_0000_0000u64 != 0) == r3
            &&& (w & 0x1000_0000_0000u64 != 0) == r4
            &&& (b & 0x200_0000_0000u64 != 0) == r1
            &&& (b & 0x400_0000_0000u64 != 0) == r2
            &&& (b & 0x800_0000_0000u64 != 0) == r3
            &&& (b & 0x1000_0000_0000u64 != 0) == r4
        }),
{
}

/// The rank masks hold exactly the squares of their ranks.
proof fn lemma_rank_masks(s: u64, t: u64)
    by (bit_vector)
    requires
        s < 64,
        t < 64,
    ensures
        ((0xff00u64 >> s) & 1u64 == 1u64) <==> (8 <= s < 16),
        ((0xff00_0000u64 >> t) & 1u64 == 1u64) <==> (24 <= t < 32),
        ((0xff_0000_0000u64 >> t) & 1u64 == 1u64) <==> (32 <= t < 40),
        ((0xff_0000_0000_0000u64 >> s) & 1u64 == 1u64) <==> (48 <= s < 56),
{
}

/// The move counters stay within their fields when they are kept, reset or incremented.
proof fn lemma_counters(info: u64)
    by (bit_vector)
    ensures
        ((info & 0xff_ff00u64) >> 8u64) <= 0xffff,
        (((((info & 0xff_ff00u64) >> 8u64) + 1) as u64) << 8u64) & !0x1ff_ff00u64 == 0,
        0u64 & !0x1ff_ff00u64 == 0,
        (info & 0xff_ff00_0000u64) & !0x1ff_ff00_0000u64 == 0,
        (info & 0xff_ff00_0000u64) & 0x100_0000_0000u64 == 0,
        (((((info & 0xff_ff00_0000u64) >> 24u64) + 1) as u64) << 24u64) & !0x1ff_ff00_0000u64 == 0,
{
}

/// A single square meets a mask exactly when the mask holds that square.
proof fn lemma_square_and(i: int, x: u64)
    requires
        0 <= i < 64,
    ensures
        (square_bb(i) & x != 0) <==> bit(x, i),
{
    if !bit(x, i) {
        lemma_bits_ext(square_bb(i) & x, 0);
    } else {
        assert(bit(square_bb(i) & x, i));
        assert(!bit(0u64, i));
    }
}

/// A single square meets two masks at once exactly when both hold that square.
proof fn lemma_square_and2(i: int, x: u64, y: u64)
    requires
        0 <= i < 64,
    ensures
        (square_bb(i) & x & y != 0) <==> bit(x, i) && bit(y, i),
{
    if !(bit(x, i) && bit(y, i)) {
        lemma_bits_ext(square_bb(i) & x & y, 0);
    } else {
        assert(bit(square_bb(i) & x & y, i));
        assert(!bit(0u64, i));
    }
}

/// The information word after a white move: black is to move, and the en passant square and
/// the four rights are those that `make_move_white_spec` computes.
pub proof fn lemma_info_white(a: Seq<u64>, m: u16)
    requires
        a.len() == 15,
    ensures
        ({
            let b = make_move_white_spec(a, m);
            let info = a[INFO as int];
            let from = square_bb(crate::moves::from_sq(m));
            let to = square_bb(crate::moves::to_sq(m));
            let king_moved = a[KING_W as int] & from != 0;
            &&& !white_turn(b)
            &&& b[INFO as int] & ENPASSANT_FLAG == if (to & 0xff00_0000u64 != 0) && (from
                & a[PAWN_W as int] & 0xff00u64 != 0) {
                u64_trailing_zeros(from << 8u64) as u64
            } else {
                64u64
            }
            &&& (b[INFO as int] & WHITE_KINGSIDE_RIGHTS != 0) == (info & WHITE_KINGSIDE_RIGHTS != 0
                && !king_moved && from & 0x01u64 == 0)
            &&& (b[INFO as int] & WHITE_QUEENSIDE_RIGHTS != 0) == (info & WHITE_QUEENSIDE_RIGHTS
                != 0 && !king_moved && from & 0x80u64 == 0)
            &&& (b[INFO as int] & BLACK_KINGSIDE_RIGHTS != 0) == (info & BLACK_KINGSIDE_RIGHTS != 0
                && to & 0x0100_0000_0000_0000u64 == 0)
            &&& (b[INFO as int] & BLACK_QUEENSIDE_RIGHTS != 0) == (info & BLACK_QUEENSIDE_RIGHTS
                != 0 && to & 0x8000_0000_0000_0000u64 == 0)
        }),
{
    let info = a[INFO as int];
    let from = square_bb(crate::moves::from_sq(m));
    let to = square_bb(crate::moves::to_sq(m));
    vstd::std_specs::bits::axiom_u64_trailing_zeros(from << 8u64);
    lemma_counters(info);
    let king_moved = a[KING_W as int] & from != 0;
    let ep = if (to & 0xff00_0000u64 != 0) && (from & a[PAWN_W as int] & 0xff00u64 != 0) {
        u64_trailing_zeros(from << 8u64) as u64
    } else {
        64u64
    };
    lemma_info_after(
        ep,
        next_halfmove(a, from, to),
        info & FULLMOVE_FLAG,
        info & WHITE_KINGSIDE_RIGHTS != 0 && !king_moved && from & 0x01u64 == 0,
        info & WHITE_QUEENSIDE_RIGHTS != 0 && !king_moved && from & 0x80u64 == 0,
        info & BLACK_KINGSIDE_RIGHTS != 0 && to & 0x0100_0000_0000_0000u64 == 0,
        info & BLACK_QUEENSIDE_RIGHTS != 0 && to & 0x8000_0000_0000_0000u64 == 0,
    );
}

/// A white move of a piece other than the king, as move generation produces it, from a valid
/// position keeps it valid.
proof fn lemma_piece_move_white_valid(a: Seq<u64>, x: int, s: int, t: int, pr: Prom)
    requires
        valid_position(a),
        white_turn(a),
        0 <= x < 6,
        x == 5 ==> (a[INFO as int] & WHITE_KINGSIDE_RIGHTS != 0 ==> t != 1) && (a[INFO as int]
            & WHITE_QUEENSIDE_RIGHTS != 0 ==> t != 5),
        0 <= s < 64,
        0 <= t < 64,
        s != t,
        bit(a[x], s),
        !bit(white_of(a), t),
        !bit(a[KING_B as int], t),
        pr != Prom::NoProm ==> x == 0 && 56 <= t,
        x == 0 && 8 <= s < 16 && 24 <= t < 32 ==> t == s + 16 && !bit(occupied_of(a), s + 8),
        leaves_king_safe(a, move_code(s, t) | prom_bits(pr)),
    ensures
        valid_position(make_move_white_spec(a, move_code(s, t) | prom_bits(pr))),
{
    let m = move_code(s, t) | prom_bits(pr);
    lemma_move_code(s, t, pr);
    lemma_piece_move_white_bits(a, x, s, t, pr);
    let b = make_move_white_spec(a, m);
    let info = a[INFO as int];
    let e = info & ENPASSANT_FLAG;
    let ep_capture = x == 0 && e < 64 && e == t;
    let from = square_bb(s);
    let to = square_bb(t);
    if x != 5 {
        assert(!bit(a[KING_W as int], s)) by {
            assert(!(bit(a[x], s) && bit(a[KING_W as int], s)));
        }
    }
    assert(!bit(a[KING_B as int], s)) by {
        assert(!(bit(a[x], s) && bit(a[KING_B as int], s)));
    }
    assert forall|p: int| 0 <= p < 6 implies !bit(#[trigger] a[p], t) by {
        assert(!bit(white_of(a), t));
    }
    if ep_capture {
        assert(40 <= t < 48 && bit(a[PAWN_B as int], t - 8));
        assert forall|p: int| 0 <= p < 12 && p != PAWN_B as int implies !bit(#[trigger] a[p], t - 8)
            by {
            if p < PAWN_B as int {
                assert(!(bit(a[p], t - 8) && bit(a[PAWN_B as int], t - 8)));
            } else {
                assert(!(bit(a[PAWN_B as int], t - 8) && bit(a[p], t - 8)));
            }
        }
    }
    // pieces stay on distinct squares
    assert forall|p: int, q: int, j: int| 0 <= p < q < 12 implies !(#[trigger] bit(b[p], j)
        && #[trigger] bit(b[q], j)) by {
        if j != s && j != t && !(ep_capture && j == t - 8) {
            assert(!(bit(a[p], j) && bit(a[q], j)));
        }
    }
    // the black king stays, the white one moves only when it is the piece moved
    let king = if x == 5 {
        square_bb(t)
    } else {
        a[KING_W as int]
    };
    assert forall|j: int| 0 <= j < 64 implies bit(b[KING_W as int], j) == bit(king, j) by {}
    lemma_bits_ext(b[KING_W as int], king);
    if x == 5 {
        lemma_trailing_zeros_single(t);
        assert(bit(king, t));
    }
    assert forall|j: int| 0 <= j < 64 implies bit(b[KING_B as int], j) == bit(a[KING_B as int], j)
        by {}
    lemma_bits_ext(b[KING_B as int], a[KING_B as int]);
    // the information word
    lemma_counters(info);
    lemma_test_square(a[PAWN_W as int], s);
    lemma_test_square(a[KING_W as int], s);
    lemma_rank_masks(s as u64, t as u64);
    lemma_info_white(a, m);
    lemma_castle_constants();
    lemma_square_and(s, 0x01u64);
    lemma_square_and(s, 0x80u64);
    lemma_square_and(t, 0x0100_0000_0000_0000u64);
    lemma_square_and(t, 0x8000_0000_0000_0000u64);
    lemma_square_and(t, 0xff00_0000u64);
    lemma_square_and2(s, a[PAWN_W as int], 0xff00u64);
    let bi = b[INFO as int];
    // the rights that remain still have their king and rook at home
    if bi & WHITE_KINGSIDE_RIGHTS != 0 {
        assert(bit(white_of(a), 0));
        assert(bit(b[ROOK_W as int], 0));
    }
    if bi & WHITE_QUEENSIDE_RIGHTS != 0 {
        assert(bit(white_of(a), 7));
        assert(bit(b[ROOK_W as int], 7));
    }
    if bi & BLACK_KINGSIDE_RIGHTS != 0 {
        assert(s != 56) by {
            assert(!(bit(a[x], 56) && bit(a[ROOK_B as int], 56)));
        }
        assert(bit(b[ROOK_B as int], 56));
    }
    if bi & BLACK_QUEENSIDE_RIGHTS != 0 {
        assert(s != 63) by {
            assert(!(bit(a[x], 63) && bit(a[ROOK_B as int], 63)));
        }
        assert(bit(b[ROOK_B as int], 63));
    }
    // a double step leaves the square behind the pawn as the en passant square
    let e2 = bi & ENPASSANT_FLAG;
    if e2 < 64 {
        assert(bit(a[PAWN_W as int], s) && 8 <= s < 16 && 24 <= t < 32);
        assert(x == 0) by {
            if x != 0 {
                assert(!(bit(a[PAWN_W as int], s) && bit(a[x], s)));
            }
        }
        lemma_shift_rank((s + 8) as u64);
        lemma_trailing_zeros_single(s + 8);
        assert(e2 == s + 8);
        assert(!ep_capture);
        assert forall|p: int| 0 <= p < 12 implies !bit(#[trigger] b[p], s + 8) by {
            assert(!bit(occupied_of(a), s + 8));
            assert(!bit(a[p], s + 8));
        }
        assert(!bit(occupied_of(b), e2 as int));
        assert(bit(b[PAWN_W as int], e2 + 8));
    }
    assert(!white_turn(b));
    assert(!attacked_by_black(b, u64_trailing_zeros(b[KING_W as int]) as int, occupied_of(b)));
}

/// The piece that stands on the target square after a black move of piece `x`, promoting to
/// `pr`.
pub open spec fn placed_piece_black(x: int, pr: Prom) -> int {
    match pr {
        Prom::NoProm => x,
        _ => placed_piece(0, pr) + 6,
    }
}

/// What a black move other than castling does to the board of a valid position: piece `x`
/// leaves `s`, `t` holds the moved or promoted piece (a piece taken there leaves), a pawn taken
/// en passant leaves the square behind `t`, and every other square keeps its piece.
pub proof fn lemma_piece_move_black_bits(a: Seq<u64>, x: int, s: int, t: int, pr: Prom)
    requires
        valid_position(a),
        !white_turn(a),
        6 <= x < 12,
        x == 11 ==> (a[INFO as int] & BLACK_KINGSIDE_RIGHTS != 0 ==> t != 57) && (a[INFO as int]
            & BLACK_QUEENSIDE_RIGHTS != 0 ==> t != 61),
        0 <= s < 64,
        0 <= t < 64,
        s != t,
        bit(a[x], s),
        !bit(black_of(a), t),
        pr != Prom::NoProm ==> x == 6,
    ensures
        ({
            let b = make_move_black_spec(a, move_code(s, t) | prom_bits(pr));
            let e = a[INFO as int] & ENPASSANT_FLAG;
            let ep_capture = x == 6 && e < 64 && e == t;
            &&& b.len() == 15
            &&& forall|p: int, j: int|
                0 <= p < 12 ==> #[trigger] bit(b[p], j) == if j == s {
                    false
                } else if j == t {
                    p == placed_piece_black(x, pr)
                } else if ep_capture && j == t + 8 {
                    false
                } else {
                    bit(a[p], j)
                }
        }),
{
    let m = move_code(s, t) | prom_bits(pr);
    lemma_move_code(s, t, pr);
    let info = a[INFO as int];
    let e = info & ENPASSANT_FLAG;
    let from = square_bb(s);
    let to = square_bb(t);
    let ep = enpassant_of(info);
    let ep_capture = x == 6 && e < 64 && e == t;
    assert(forall|p: int| 0 <= p < 12 && p != x ==> !bit(#[trigger] a[p], s)) by {
        assert forall|p: int| 0 <= p < 12 && p != x implies !bit(#[trigger] a[p], s) by {
            if p < x {
                assert(!(bit(a[p], s) && bit(a[x], s)));
            } else {
                assert(!(bit(a[x], s) && bit(a[p], s)));
            }
        }
    }
    lemma_test_square(a[KING_B as int], s);
    lemma_test_square(a[PAWN_B as int], s);
    lemma_castle_constants();
    if to == 0x0200_0000_0000_0000u64 {
        lemma_square_bb_injective(t, 57);
    }
    if to == 0x2000_0000_0000_0000u64 {
        lemma_square_bb_injective(t, 61);
    }
    assert(bit(to, t));
    if ep == to {
        if e >= 64 {
            assert(ep == 0u64);
        } else {
            lemma_square_bb_injective(e as int, t);
        }
    }
    if ep_capture {
        assert(ep == to);
    }
    assert forall|p: int| 6 <= p < 12 implies !bit(#[trigger] a[p], t) by {
        assert(!bit(black_of(a), t));
    }
    let a2 = if ep_capture {
        a.update(PAWN_W as int, a[PAWN_W as int] ^ (to << 8u64))
    } else {
        a
    };
    if ep_capture {
        lemma_shift_rank((t + 8) as u64);
        assert(to << 8u64 == square_bb(t + 8));
        assert(bit(a[PAWN_W as int], t + 8));
    }
    assert forall|p: int, j: int| 0 <= p < 15 implies #[trigger] bit(a2[p], j) == if ep_capture
        && p == PAWN_W as int && j == t + 8 {
        false
    } else {
        bit(a[p], j)
    } by {}
    lemma_disjoint_shrink(a, a2);
    lemma_xor_first_square(a2, t, to);
    let a3 = xor_first(a2, to, to);
    lemma_disjoint_shrink(a2, a3);
    lemma_xor_first_square(a3, s, from | to);
    let a4 = xor_first(a3, from, from | to);
    let a5 = promote(a4, 6, to, pr);
    let b = make_move_black_spec(a, m);
    assert(b == a5.update(INFO as int, b[INFO as int]));
    assert forall|p: int, j: int| 0 <= p < 12 implies #[trigger] bit(b[p], j) == if j == s {
        false
    } else if j == t {
        p == placed_piece_black(x, pr)
    } else if ep_capture && j == t + 8 {
        false
    } else {
        bit(a[p], j)
    } by {
        assert(bit(a4[p], j) == if j == s {
            false
        } else if j == t {
            p == x
        } else if ep_capture && j == t + 8 {
            false
        } else {
            bit(a[p], j)
        });
    }
}

/// The information word after a black move: white is to move, and the en passant square and
/// the four rights are those that `make_move_black_spec` computes.
pub proof fn lemma_info_black(a: Seq<u64>, m: u16)
    requires
        a.len() == 15,
    ensures
        ({
            let b = make_move_black_spec(a, m);
            let info = a[INFO as int];
            let from = square_bb(crate::moves::from_sq(m));
            let to = square_bb(crate::moves::to_sq(m));
            let king_moved = a[KING_B as int] & from != 0;
            &&& white_turn(b)
            &&& b[INFO as int] & ENPASSANT_FLAG == if (to & 0xff_0000_0000u64 != 0) && (from
                & a[PAWN_B as int] & 0xff_0000_0000_0000u64 != 0) {
                u64_trailing_zeros(from >> 8u64) as u64
            } else {
                64u64
            }
            &&& (b[INFO as int] & WHITE_KINGSIDE_RIGHTS != 0) == (info & WHITE_KINGSIDE_RIGHTS != 0
                && to & 0x01u64 == 0)
            &&& (b[INFO as int] & WHITE_QUEENSIDE_RIGHTS != 0) == (info & WHITE_QUEENSIDE_RIGHTS
                != 0 && to & 0x80u64 == 0)
            &&& (b[INFO as int] & BLACK_KINGSIDE_RIGHTS != 0) == (info & BLACK_KINGSIDE_RIGHTS != 0
                && !king_moved && from & 0x0100_0000_0000_0000u64 == 0)
            &&& (b[INFO as int] & BLACK_QUEENSIDE_RIGHTS != 0) == (info & BLACK_QUEENSIDE_RIGHTS
                != 0 && !king_moved && from & 0x8000_0000_0000_0000u64 == 0)
        }),
{
    let info = a[INFO as int];
    let from = square_bb(crate::moves::from_sq(m));
    let to = square_bb(crate::moves::to_sq(m));
    vstd::std_specs::bits::axiom_u64_trailing_zeros(from >> 8u64);
    lemma_counters(info);
    let king_moved = a[KING_B as int] & from != 0;
    let ep = if (to & 0xff_0000_0000u64 != 0) && (from & a[PAWN_B as int] & 0xff_0000_0000_0000u64
        != 0) {
        u64_trailing_zeros(from >> 8u64) as u64
    } else {
        64u64
    };
    let fullmove = (info & FULLMOVE_FLAG) >> 24;
    lemma_info_after(
        ep,
        next_halfmove(a, from, to),
        ((fullmove + 1) as u64) << 24u64,
        info & WHITE_KINGSIDE_RIGHTS != 0 && to & 0x01u64 == 0,
        info & WHITE_QUEENSIDE_RIGHTS != 0 && to & 0x80u64 == 0,
        info & BLACK_KINGSIDE_RIGHTS != 0 && !king_moved && from & 0x0100_0000_0000_0000u64 == 0,
        info & BLACK_QUEENSIDE_RIGHTS != 0 && !king_moved && from & 0x8000_0000_0000_0000u64 == 0,
    );
}

/// A black move of a piece other than the king, as move generation produces it, from a valid
/// position keeps it valid.
proof fn lemma_piece_move_black_valid(a: Seq<u64>, x: int, s: int, t: int, pr: Prom)
    requires
        valid_position(a),
        !white_turn(a),
        6 <= x < 12,
        x == 11 ==> (a[INFO as int] & BLACK_KINGSIDE_RIGHTS != 0 ==> t != 57) && (a[INFO as int]
            & BLACK_QUEENSIDE_RIGHTS != 0 ==> t != 61),
        0 <= s < 64,
        0 <= t < 64,
        s != t,
        bit(a[x], s),
        !bit(black_of(a), t),
        !bit(a[KING_W as int], t),
        pr != Prom::NoProm ==> x == 6 && t < 8,
        x == 6 && 48 <= s < 56 && 32 <= t < 40 ==> t == s - 16 && !bit(occupied_of(a), s - 8),
        leaves_king_safe(a, move_code(s, t) | prom_bits(pr)),
    ensures
        valid_position(make_move_black_spec(a, move_code(s, t) | prom_bits(pr))),
{
    let m = move_code(s, t) | prom_bits(pr);
    lemma_move_code(s, t, pr);
    lemma_piece_move_black_bits(a, x, s, t, pr);
    let b = make_move_black_spec(a, m);
    let info = a[INFO as int];
    let e = info & ENPASSANT_FLAG;
    let ep_capture = x == 6 && e < 64 && e == t;
    let from = square_bb(s);
    let to = square_bb(t);
    assert(!bit(a[KING_W as int], s)) by {
        assert(!(bit(a[KING_W as int], s) && bit(a[x], s)));
    }
    if x != 11 {
        assert(!bit(a[KING_B as int], s)) by {
            assert(!(bit(a[x], s) && bit(a[KING_B as int], s)));
        }
    }
    assert forall|p: int| 6 <= p < 12 implies !bit(#[trigger] a[p], t) by {
        assert(!bit(black_of(a), t));
    }
    if ep_capture {
        assert(16 <= t < 24 && bit(a[PAWN_W as int], t + 8));
        assert forall|p: int| 0 <= p < 12 && p != PAWN_W as int implies !bit(#[trigger] a[p], t + 8)
            by {
            assert(!(bit(a[PAWN_W as int], t + 8) && bit(a[p], t + 8)));
        }
    }
    // pieces stay on distinct squares
    assert forall|p: int, q: int, j: int| 0 <= p < q < 12 implies !(#[trigger] bit(b[p], j)
        && #[trigger] bit(b[q], j)) by {
        if j != s && j != t && !(ep_capture && j == t + 8) {
            assert(!(bit(a[p], j) && bit(a[q], j)));
        }
    }
    // the white king stays, the black one moves only when it is the piece moved
    let king = if x == 11 {
        square_bb(t)
    } else {
        a[KING_B as int]
    };
    assert forall|j: int| 0 <= j < 64 implies bit(b[KING_W as int], j) == bit(a[KING_W as int], j)
        by {}
    lemma_bits_ext(b[KING_W as int], a[KING_W as int]);
    assert forall|j: int| 0 <= j < 64 implies bit(b[KING_B as int], j) == bit(king, j) by {}
    lemma_bits_ext(b[KING_B as int], king);
    if x == 11 {
        lemma_trailing_zeros_single(t);
        assert(bit(king, t));
    }
    // the information word
    lemma_counters(info);
    lemma_test_square(a[PAWN_B as int], s);
    lemma_test_square(a[KING_B as int], s);
    lemma_rank_masks(s as u64, t as u64);
    lemma_info_black(a, m);
    lemma_castle_constants();
    lemma_square_and(t, 0x01u64);
    lemma_square_and(t, 0x80u64);
    lemma_square_and(s, 0x0100_0000_0000_0000u64);
    lemma_square_and(s, 0x8000_0000_0000_0000u64);
    lemma_square_and(t, 0xff_0000_0000u64);
    lemma_square_and2(s, a[PAWN_B as int], 0xff_0000_0000_0000u64);
    let bi = b[INFO as int];
    // the rights that remain still have their king and rook at home
    if bi & WHITE_KINGSIDE_RIGHTS != 0 {
        assert(s != 0) by {
            assert(!(bit(a[ROOK_W as int], 0) && bit(a[x], 0)));
        }
        assert(bit(b[ROOK_W as int], 0));
    }
    if bi & WHITE_QUEENSIDE_RIGHTS != 0 {
        assert(s != 7) by {
            assert(!(bit(a[ROOK_W as int], 7) && bit(a[x], 7)));
        }
        assert(bit(b[ROOK_W as int], 7));
    }
    if bi & BLACK_KINGSIDE_RIGHTS != 0 {
        assert(bit(black_of(a), 56));
        assert(bit(b[ROOK_B as int], 56));
    }
    if bi & BLACK_QUEENSIDE_RIGHTS != 0 {
        assert(bit(black_of(a), 63));
        assert(bit(b[ROOK_B as int], 63));
    }
    // a double step leaves the square behind the pawn as the en passant square
    let e2 = bi & ENPASSANT_FLAG;
    if e2 < 64 {
        assert(bit(a[PAWN_B as int], s) && 48 <= s < 56 && 32 <= t < 40);
        assert(x == 6) by {
            if x != 6 {
                assert(!(bit(a[PAWN_B as int], s) && bit(a[x], s)));
            }
        }
        lemma_shift_rank(s as u64);
        lemma_trailing_zeros_single(s - 8);
        assert(e2 == s - 8);
        assert(!ep_capture);
        assert forall|p: int| 0 <= p < 12 implies !bit(#[trigger] b[p], s - 8) by {
            assert(!bit(occupied_of(a), s - 8));
            assert(!bit(a[p], s - 8));
        }
        assert(!bit(occupied_of(b), e2 as int));
        assert(bit(b[PAWN_B as int], e2 - 8));
    }
    assert(white_turn(b));
    assert(!attacked_by_white(b, u64_trailing_zeros(b[KING_B as int]) as int, occupied_of(b)));
}

/// White castles from a valid position, the king going from e1 to `t` (g1 or c1) through
/// empty squares: the position stays valid.
proof fn lemma_castle_white_valid(a: Seq<u64>, t: int)
    requires
        valid_position(a),
        white_turn(a),
        t == 1 || t == 5,
        t == 1 ==> a[INFO as int] & WHITE_KINGSIDE_RIGHTS != 0 && occupied_of(a) & 0x06 == 0,
        t == 5 ==> a[INFO as int] & WHITE_QUEENSIDE_RIGHTS != 0 && occupied_of(a) & 0x70 == 0,
        leaves_king_safe(a, move_code(3, t)),
    ensures
        valid_position(make_move_white_spec(a, move_code(3, t))),
{
    let m = move_code(3, t);
    lemma_move_code(3, t, Prom::NoProm);
    lemma_castle_constants();
    let info = a[INFO as int];
    let from = square_bb(3);
    let to = square_bb(t);
    let squares: u64 = if t == 1 {
        0x06
    } else {
        0x70
    };
    let mask: u64 = if t == 1 {
        0x05
    } else {
        0x90
    };
    let rf: int = if t == 1 {
        0
    } else {
        7
    };
    let rt: int = if t == 1 {
        2
    } else {
        4
    };
    assert(bit(a[KING_W as int], 3) && bit(a[ROOK_W as int], rf));
    assert(bit(squares, t) && bit(squares, rt));
    assert(!bit(occupied_of(a) & squares, t) && !bit(occupied_of(a) & squares, rt));
    assert(!bit(occupied_of(a), t) && !bit(occupied_of(a), rt));
    if t == 5 {
        assert(to != 0x02u64) by {
            assert(bit(to, 5));
            assert(!bit(0x02u64, 5));
        }
    }
    let a1 = a.update(ROOK_W as int, a[ROOK_W as int] ^ mask);
    lemma_test_square(a[KING_W as int], 3);
    lemma_test_square(a[PAWN_W as int], 3);
    assert(!(bit(a[PAWN_W as int], 3) && bit(a[KING_W as int], 3)));
    assert forall|q: int| 0 <= q < 12 implies !bit(#[trigger] a1[q], t) by {
        assert(!bit(occupied_of(a), t));
    }
    lemma_first_hit_none(a1, t, 0);
    assert forall|q: int| 0 <= q < 12 && q != KING_W as int implies !bit(#[trigger] a1[q], 3) by {
        if q < 5 {
            assert(!(bit(a[q], 3) && bit(a[KING_W as int], 3)));
        } else {
            assert(!(bit(a[KING_W as int], 3) && bit(a[q], 3)));
        }
    }
    lemma_first_hit_only(a1, 3, KING_W as int, 0);
    let a4 = a1.update(KING_W as int, a1[KING_W as int] ^ (from | to));
    let b = make_move_white_spec(a, m);
    assert(b == a4.update(INFO as int, b[INFO as int]));
    assert forall|p: int| 0 <= p < 12 && p != ROOK_W as int implies !bit(#[trigger] a[p], rf) by {
        if p < 3 {
            assert(!(bit(a[p], rf) && bit(a[ROOK_W as int], rf)));
        } else {
            assert(!(bit(a[ROOK_W as int], rf) && bit(a[p], rf)));
        }
    }
    assert forall|p: int| 0 <= p < 12 implies !bit(#[trigger] a[p], rt) by {
        assert(!bit(occupied_of(a), rt));
    }
    assert forall|p: int, j: int| 0 <= p < 12 implies #[trigger] bit(b[p], j) == if j == 3 {
        false
    } else if j == t {
        p == KING_W as int
    } else if j == rf {
        false
    } else if j == rt {
        p == ROOK_W as int
    } else {
        bit(a[p], j)
    } by {}
    // pieces stay on distinct squares
    assert forall|p: int, q: int, j: int| 0 <= p < q < 12 implies !(#[trigger] bit(b[p], j)
        && #[trigger] bit(b[q], j)) by {
        if j != 3 && j != t && j != rf && j != rt {
            assert(!(bit(a[p], j) && bit(a[q], j)));
        }
    }
    // the kings
    assert forall|j: int| 0 <= j < 64 implies bit(b[KING_W as int], j) == bit(to, j) by {}
    lemma_bits_ext(b[KING_W as int], to);
    lemma_trailing_zeros_single(t);
    assert forall|j: int| 0 <= j < 64 implies bit(b[KING_B as int], j) == bit(a[KING_B as int], j)
        by {}
    lemma_bits_ext(b[KING_B as int], a[KING_B as int]);
    // the information word
    lemma_info_white(a, m);
    lemma_square_and(t, 0x0100_0000_0000_0000u64);
    lemma_square_and(t, 0x8000_0000_0000_0000u64);
    lemma_square_and2(3, a[PAWN_W as int], 0xff00u64);
    let bi = b[INFO as int];
    if bi & BLACK_KINGSIDE_RIGHTS != 0 {
        assert(bit(b[ROOK_B as int], 56));
    }
    if bi & BLACK_QUEENSIDE_RIGHTS != 0 {
        assert(bit(b[ROOK_B as int], 63));
    }
    assert(bi & ENPASSANT_FLAG == 64);
    assert(!white_turn(b));
    assert(!attacked_by_black(b, u64_trailing_zeros(b[KING_W as int]) as int, occupied_of(b)));
}

/// Black castles from a valid position, the king going from e8 to `t` (g8 or c8) through
/// empty squares: the position stays valid.
proof fn lemma_castle_black_valid(a: Seq<u64>, t: int)
    requires
        valid_position(a),
        !white_turn(a),
        t == 57 || t == 61,
        t == 57 ==> a[INFO as int] & BLACK_KINGSIDE_RIGHTS != 0 && occupied_of(a)
            & 0x0600_0000_0000_0000 == 0,
        t == 61 ==> a[INFO as int] & BLACK_QUEENSIDE_RIGHTS != 0 && occupied_of(a)
            & 0x7000_0000_0000_0000 == 0,
        leaves_king_safe(a, move_code(59, t)),
    ensures
        valid_position(make_move_black_spec(a, move_code(59, t))),
{
    let m = move_code(59, t);
    lemma_move_code(59, t, Prom::NoProm);
    lemma_castle_constants();
    let info = a[INFO as int];
    let from = square_bb(59);
    let to = square_bb(t);
    let squares: u64 = if t == 57 {
        0x0600_0000_0000_0000
    } else {
        0x7000_0000_0000_0000
    };
    let mask: u64 = if t == 57 {
        0x0500_0000_0000_0000
    } else {
        0x9000_0000_0000_0000
    };
    let rf: int = if t == 57 {
        56
    } else {
        63
    };
    let rt: int = if t == 57 {
        58
    } else {
        60
    };
    assert(bit(a[KING_B as int], 59) && bit(a[ROOK_B as int], rf));
    assert(bit(squares, t) && bit(squares, rt));
    assert(!bit(occupied_of(a) & squares, t) && !bit(occupied_of(a) & squares, rt));
    assert(!bit(occupied_of(a), t) && !bit(occupied_of(a), rt));
    if t == 61 {
        assert(to != 0x0200_0000_0000_0000u64) by {
            assert(bit(to, 61));
            assert(!bit(0x0200_0000_0000_0000u64, 61));
        }
    }
    let a1 = a.update(ROOK_B as int, a[ROOK_B as int] ^ mask);
    lemma_test_square(a[KING_B as int], 59);
    lemma_test_square(a[PAWN_B as int], 59);
    assert(!(bit(a[PAWN_B as int], 59) && bit(a[KING_B as int], 59)));
    assert forall|q: int| 0 <= q < 12 implies !bit(#[trigger] a1[q], t) by {
        assert(!bit(occupied_of(a), t));
    }
    lemma_first_hit_none(a1, t, 0);
    assert forall|q: int| 0 <= q < 12 && q != KING_B as int implies !bit(#[trigger] a1[q], 59) by {
        assert(!(bit(a[q], 59) && bit(a[KING_B as int], 59)));
    }
    lemma_first_hit_only(a1, 59, KING_B as int, 0);
    let a4 = a1.update(KING_B as int, a1[KING_B as int] ^ (from | to));
    let b = make_move_black_spec(a, m);
    assert(b == a4.update(INFO as int, b[INFO as int]));
    assert forall|p: int| 0 <= p < 12 && p != ROOK_B as int implies !bit(#[trigger] a[p], rf) by {
        if p < 9 {
            assert(!(bit(a[p], rf) && bit(a[ROOK_B as int], rf)));
        } else {
            assert(!(bit(a[ROOK_B as int], rf) && bit(a[p], rf)));
        }
    }
    assert forall|p: int| 0 <= p < 12 implies !bit(#[trigger] a[p], rt) by {
        assert(!bit(occupied_of(a), rt));
    }
    assert forall|p: int, j: int| 0 <= p < 12 implies #[trigger] bit(b[p], j) == if j == 59 {
        false
    } else if j == t {
        p == KING_B as int
    } else if j == rf {
        false
    } else if j == rt {
        p == ROOK_B as int
    } else {
        bit(a[p], j)
    } by {}
    // pieces stay on distinct squares
    assert forall|p: int, q: int, j: int| 0 <= p < q < 12 implies !(#[trigger] bit(b[p], j)
        && #[trigger] bit(b[q], j)) by {
        if j != 59 && j != t && j != rf && j != rt {
            assert(!(bit(a[p], j) && bit(a[q], j)));
        }
    }
    // the kings
    assert forall|j: int| 0 <= j < 64 implies bit(b[KING_B as int], j) == bit(to, j) by {}
    lemma_bits_ext(b[KING_B as int], to);
    lemma_trailing_zeros_single(t);
    assert forall|j: int| 0 <= j < 64 implies bit(b[KING_W as int], j) == bit(a[KING_W as int], j)
        by {}
    lemma_bits_ext(b[KING_W as int], a[KING_W as int]);
    // the information word
    lemma_info_black(a, m);
    lemma_square_and(t, 0x01u64);
    lemma_square_and(t, 0x80u64);
    lemma_square_and2(59, a[PAWN_B as int], 0xff_0000_0000_0000u64);
    let bi = b[INFO as int];
    if bi & WHITE_KINGSIDE_RIGHTS != 0 {
        assert(bit(b[ROOK_W as int], 0));
    }
    if bi & WHITE_QUEENSIDE_RIGHTS != 0 {
        assert(bit(b[ROOK_W as int], 7));
    }
    assert(bi & ENPASSANT_FLAG == 64);
    assert(white_turn(b));
    assert(!attacked_by_white(b, u64_trailing_zeros(b[KING_B as int]) as int, occupied_of(b)));
}

/// A white piece `x` on `s` that reaches `t` (by its attack; a pawn by its capture) attacks
/// `t` in the sense of `attacked_by_white`.
pub(crate) proof fn lemma_white_attacks_back(a: Seq<u64>, x: int, s: int, t: int, occ: u64)
    requires
        a.len() == 15,
        0 <= x < 6,
        0 <= s < 64,
        0 <= t < 64,
        bit(a[x], s),
        x == 0 ==> white_pawn_attack(s, t),
        x == 5 ==> king_step(s, t),
        1 <= x < 5 ==> bit(piece_attack_bb(x, s, occ), t),
    ensures
        attacked_by_white(a, t, occ),
{
    let all = (knight_bb(t) & a[KNIGHT_W as int]) | (black_pawn_bb(t) & a[PAWN_W as int]) | (
    king_bb(t) & a[KING_W as int]) | (rook_bb(t, occ) & (a[ROOK_W as int] | a[QUEEN_W as int])) | (
    bishop_bb(t, occ) & (a[BISHOP_W as int] | a[QUEEN_W as int]));
    if x == 0 {
        lemma_bb_of_exists(|u: int| black_pawn_attack(t, u));
        assert(bit(black_pawn_bb(t), s));
    } else if x == 1 {
        lemma_bb_of_exists(|u: int| knight_step(s, u));
        lemma_bb_of_exists(|u: int| knight_step(t, u));
        assert(bit(knight_bb(t), s));
    } else if x == 5 {
        lemma_bb_of_exists(|u: int| king_step(t, u));
        assert(bit(king_bb(t), s));
    } else {
        lemma_bb_of_exists(|u: int| bishop_attack(s, occ, u));
        lemma_bb_of_exists(|u: int| rook_attack(s, occ, u));
        lemma_bb_of_exists(|u: int| queen_attack(s, occ, u));
        lemma_bb_of_exists(|u: int| bishop_attack(t, occ, u));
        lemma_bb_of_exists(|u: int| rook_attack(t, occ, u));
        if bishop_attack(s, occ, t) && (x == 2 || x == 4) {
            lemma_bishop_attack_symmetric(s, occ, t);
            assert(bit(bishop_bb(t, occ), s));
        } else {
            lemma_rook_attack_symmetric(s, occ, t);
            assert(bit(rook_bb(t, occ), s));
        }
    }
    assert(bit(all, s));
}

/// A black piece `x` on `s` that reaches `t` (by its attack; a pawn by its capture) attacks
/// `t` in the sense of `attacked_by_black`.
pub(crate) proof fn lemma_black_attacks_back(a: Seq<u64>, x: int, s: int, t: int, occ: u64)
    requires
        a.len() == 15,
        6 <= x < 12,
        0 <= s < 64,
        0 <= t < 64,
        bit(a[x], s),
        x == 6 ==> black_pawn_attack(s, t),
        x == 11 ==> king_step(s, t),
        7 <= x < 11 ==> bit(piece_attack_bb(x - 6, s, occ), t),
    ensures
        attacked_by_black(a, t, occ),
{
    let all = (knight_bb(t) & a[KNIGHT_B as int]) | (white_pawn_bb(t) & a[PAWN_B as int]) | (
    king_bb(t) & a[KING_B as int]) | (rook_bb(t, occ) & (a[ROOK_B as int] | a[QUEEN_B as int])) | (
    bishop_bb(t, occ) & (a[BISHOP_B as int] | a[QUEEN_B as int]));
    if x == 6 {
        lemma_bb_of_exists(|u: int| white_pawn_attack(t, u));
        assert(bit(white_pawn_bb(t), s));
    } else if x == 7 {
        lemma_bb_of_exists(|u: int| knight_step(s, u));
        lemma_bb_of_exists(|u: int| knight_step(t, u));
        assert(bit(knight_bb(t), s));
    } else if x == 11 {
        lemma_bb_of_exists(|u: int| king_step(t, u));
        assert(bit(king_bb(t), s));
    } else {
        lemma_bb_of_exists(|u: int| bishop_attack(s, occ, u));
        lemma_bb_of_exists(|u: int| rook_attack(s, occ, u));
        lemma_bb_of_exists(|u: int| queen_attack(s, occ, u));
        lemma_bb_of_exists(|u: int| bishop_attack(t, occ, u));
        lemma_bb_of_exists(|u: int| rook_attack(t, occ, u));
        if bishop_attack(s, occ, t) && (x == 8 || x == 10) {
            lemma_bishop_attack_symmetric(s, occ, t);
            assert(bit(bishop_bb(t, occ), s));
        } else {
            lemma_rook_attack_symmetric(s, occ, t);
            assert(bit(rook_bb(t, occ), s));
        }
    }
    assert(bit(all, s));
}

/// A move kept by `safe_moves` is one of the moves it filtered.
pub(crate) proof fn lemma_safe_moves_member(a: Seq<u64>, ms: Seq<u16>, i: int) -> (j: int)
    requires
        0 <= i < safe_moves(a, ms).len(),
    ensures
        0 <= j < ms.len(),
        ms[j] == safe_moves(a, ms)[i],
    decreases ms.len(),
{
    let rest = safe_moves(a, ms.drop_last());
    if i < rest.len() {
        lemma_safe_moves_member(a, ms.drop_last(), i)
    } else {
        ms.len() - 1
    }
}

/// A step kept by `safe_king_steps` goes to one of the squares it filtered.
pub(crate) proof fn lemma_safe_king_steps_member(a: Seq<u64>, k: int, ts: Seq<int>, occ: u64, i: int) -> (j:
    int)
    requires
        0 <= i < safe_king_steps(a, k, ts, occ).len(),
    ensures
        0 <= j < ts.len(),
        safe_king_steps(a, k, ts, occ)[i] == move_code(k, ts[j]),
    decreases ts.len(),
{
    let rest = safe_king_steps(a, k, ts.drop_last(), occ);
    if i < rest.len() {
        lemma_safe_king_steps_member(a, k, ts.drop_last(), occ, i)
    } else {
        ts.len() - 1
    }
}

/// Valid positions are positions the move rules are meant for.
proof fn lemma_valid_sound(a: Seq<u64>)
    requires
        valid_position(a),
    ensures
        sound_position(a),
{
    let kw = a[KING_W as int];
    let kb = a[KING_B as int];
    if a[INFO as int] & WHITE_KINGSIDE_RIGHTS != 0 || a[INFO as int] & WHITE_QUEENSIDE_RIGHTS != 0 {
        assert(bit(kw, 3));
        assert(bit(square_bb(u64_trailing_zeros(kw) as int), 3));
    }
    if a[INFO as int] & BLACK_KINGSIDE_RIGHTS != 0 || a[INFO as int] & BLACK_QUEENSIDE_RIGHTS != 0 {
        assert(bit(kb, 59));
        assert(bit(square_bb(u64_trailing_zeros(kb) as int), 59));
    }
}

/// A piece of the side that has just moved never stands on the square of a king that is
/// attacked: in a valid position the king of the side not to move stands on no square that
/// the side to move attacks.
proof fn lemma_king_not_attacked(a: Seq<u64>, t: int)
    requires
        valid_position(a),
        0 <= t < 64,
    ensures
        white_turn(a) && bit(a[KING_B as int], t) ==> !attacked_by_white(a, t, occupied_of(a)),
        !white_turn(a) && bit(a[KING_W as int], t) ==> !attacked_by_black(a, t, occupied_of(a)),
{
    vstd::std_specs::bits::axiom_u64_trailing_zeros(a[KING_B as int]);
    vstd::std_specs::bits::axiom_u64_trailing_zeros(a[KING_W as int]);
    if bit(a[KING_B as int], t) {
        assert(bit(square_bb(u64_trailing_zeros(a[KING_B as int]) as int), t));
    }
    if bit(a[KING_W as int], t) {
        assert(bit(square_bb(u64_trailing_zeros(a[KING_W as int]) as int), t));
    }
}

/// A pawn move of the side to move, from `s` to `t` with promotion `pr`, as pawn move
/// generation produces it.
pub open spec fn pawn_move_from(a: Seq<u64>, s: int, t: int, pr: Prom) -> bool {
    let w = white_turn(a);
    &&& bit(pawn_targets(w, s, opps_of(a), enpassant_of(a[INFO as int]), occupied_of(a)), t)
    &&& (pawn_promotes(w, s) <==> pr != Prom::NoProm)
}

/// A white pawn move from a valid position meets the conditions of
/// `lemma_piece_move_white_valid`.
proof fn lemma_white_pawn_move_facts(a: Seq<u64>, s: int, t: int, pr: Prom)
    requires
        valid_position(a),
        white_turn(a),
        0 <= s < 64,
        0 <= t < 64,
        bit(a[PAWN_W as int], s),
        pawn_move_from(a, s, t, pr),
    ensures
        s != t,
        !bit(white_of(a), t),
        !bit(a[KING_B as int], t),
        pr != Prom::NoProm ==> 56 <= t,
        8 <= s < 16 && 24 <= t < 32 ==> t == s + 16 && !bit(occupied_of(a), s + 8),
{
    let occ = occupied_of(a);
    let info = a[INFO as int];
    let e = info & ENPASSANT_FLAG;
    let ep = enpassant_of(info);
    lemma_bb_of_exists(|u: int| white_pawn_attack(s, u));
    lemma_bb_of_exists(|u: int| crate::attacks::white_pawn_step(s, occ, u));
    if bit(white_pawn_bb(s) & (black_of(a) | ep), t) {
        assert(white_pawn_attack(s, t));
        if bit(black_of(a), t) {
            assert forall|p: int| 0 <= p < 6 implies !bit(#[trigger] a[p], t) by {
                assert(!(bit(a[p], t) && bit(a[6], t)));
                assert(!(bit(a[p], t) && bit(a[7], t)));
                assert(!(bit(a[p], t) && bit(a[8], t)));
                assert(!(bit(a[p], t) && bit(a[9], t)));
                assert(!(bit(a[p], t) && bit(a[10], t)));
                assert(!(bit(a[p], t) && bit(a[11], t)));
            }
            assert(!bit(white_of(a), t));
        } else {
            assert(bit(ep, t));
            assert(e < 64);
            assert(ep == square_bb(e as int));
            assert(t == e);
            assert(!bit(occ, e as int));
            assert(!bit(white_of(a), t));
        }
        lemma_king_not_attacked(a, t);
        if bit(a[KING_B as int], t) {
            lemma_white_attacks_back(a, 0, s, t, occ);
        }
    } else {
        assert(crate::attacks::white_pawn_step(s, occ, t));
        assert(!bit(occ, t));
        assert(!bit(white_of(a), t));
    }
}

/// Every legal move of white from a valid position keeps it valid.
proof fn lemma_legal_move_white_valid(a: Seq<u64>, i: int)
    requires
        valid_position(a),
        white_turn(a),
        0 <= i < legal_moves(a).len(),
    ensures
        valid_position(make_move_white_spec(a, legal_moves(a)[i])),
{
    lemma_valid_sound(a);
    law_legal_moves_leave_king_safe(a, i);
    reveal(legal_moves);
    let m = legal_moves(a)[i];
    let k = own_king_sq(a);
    let occ = occupied_of(a);
    let team = white_of(a);
    let lk = legal_king_moves(a);
    let lc = legal_castle_moves(a);
    let so = safe_moves(a, other_moves_spec(a));
    assert(legal_moves(a) == lk + lc + so);
    vstd::std_specs::bits::axiom_u64_trailing_zeros(a[KING_W as int]);
    assert(bit(a[KING_W as int], k));
    if i < lk.len() {
        let targets = king_bb(k) & !team_of(a);
        let ts = squares(targets);
        lemma_bits_from_bounds(targets, 0);
        lemma_bb_of_exists(|u: int| king_step(k, u));
        assert(own_king(a) == a[KING_W as int]);
        let j = lemma_safe_king_steps_member(a, k, ts, occ & !a[KING_W as int], i);
        let t = ts[j];
        assert(m == lk[i]);
        assert(bit(targets, t));
        assert(king_step(k, t) && !bit(team, t));
        lemma_king_not_attacked(a, t);
        if bit(a[KING_B as int], t) {
            lemma_white_attacks_back(a, 5, k, t, occ);
        }
        if a[INFO as int] & WHITE_KINGSIDE_RIGHTS != 0 || a[INFO as int] & WHITE_QUEENSIDE_RIGHTS
            != 0 {
            assert(bit(square_bb(k), 3));
        }
        lemma_move_code(k, t, Prom::NoProm);
        lemma_piece_move_white_valid(a, 5, k, t, Prom::NoProm);
    } else if i < lk.len() + lc.len() {
        let j = i - lk.len();
        assert(m == lc[j]);
        let cond_k = kingside_open(a) && !attacked_by_black(a, k, occ) && !attacked_by_black(a, 2, occ)
            && !attacked_by_black(a, 1, occ);
        if a[INFO as int] & WHITE_KINGSIDE_RIGHTS != 0 || a[INFO as int] & WHITE_QUEENSIDE_RIGHTS
            != 0 {
            assert(bit(square_bb(k), 3));
        }
        if cond_k && j == 0 {
            lemma_castle_white_valid(a, 1);
        } else {
            lemma_castle_white_valid(a, 5);
        }
    } else {
        let oms = other_moves_spec(a);
        let j = lemma_safe_moves_member(a, oms, i - lk.len() - lc.len());
        assert(m == so[i - lk.len() - lc.len()]);
        assert(m == oms[j]);
        let ep = enpassant_of(a[INFO as int]);
        let pw = pawn_moves(true, squares(a[0]), black_of(a), ep, occ);
        let nw = piece_moves(1, squares(a[1]), team, occ);
        let bw = piece_moves(2, squares(a[2]), team, occ);
        let rw = piece_moves(3, squares(a[3]), team, occ);
        let qw = piece_moves(4, squares(a[4]), team, occ);
        assert(oms == pw + nw + bw + rw + qw);
        if j < pw.len() {
            assert(pw[j] == m);
            lemma_bits_from_bounds(a[0], 0);
            let r = lemma_pawn_moves_member(true, squares(a[0]), black_of(a), ep, occ, m);
            let s = squares(a[0])[r.0];
            lemma_white_pawn_move_facts(a, s, r.1, r.2);
            lemma_piece_move_white_valid(a, 0, s, r.1, r.2);
        } else {
            let (kind, ms, jj) = if j < pw.len() + nw.len() {
                (1int, nw, j - pw.len())
            } else if j < pw.len() + nw.len() + bw.len() {
                (2int, bw, j - pw.len() - nw.len())
            } else if j < pw.len() + nw.len() + bw.len() + rw.len() {
                (3int, rw, j - pw.len() - nw.len() - bw.len())
            } else {
                (4int, qw, j - pw.len() - nw.len() - bw.len() - rw.len())
            };
            assert(ms == piece_moves(kind, squares(a[kind]), team, occ));
            assert(ms[jj] == m);
            lemma_bits_from_bounds(a[kind], 0);
            let r = lemma_piece_moves_member(kind, squares(a[kind]), team, occ, m);
            let s = squares(a[kind])[r.0];
            let t = r.1;
            assert(bit(a[kind], s));
            assert(bit(team, s) && !bit(team, t));
            lemma_king_not_attacked(a, t);
            if bit(a[KING_B as int], t) {
                lemma_white_attacks_back(a, kind, s, t, occ);
            }
            lemma_move_code(s, t, Prom::NoProm);
            lemma_piece_move_white_valid(a, kind, s, t, Prom::NoProm);
        }
    }
}

/// A black pawn move from a valid position meets the conditions of
/// `lemma_piece_move_black_valid`.
proof fn lemma_black_pawn_move_facts(a: Seq<u64>, s: int, t: int, pr: Prom)
    requires
        valid_position(a),
        !white_turn(a),
        0 <= s < 64,
        0 <= t < 64,
        bit(a[PAWN_B as int], s),
        pawn_move_from(a, s, t, pr),
    ensures
        s != t,
        !bit(black_of(a), t),
        !bit(a[KING_W as int], t),
        pr != Prom::NoProm ==> t < 8,
        48 <= s < 56 && 32 <= t < 40 ==> t == s - 16 && !bit(occupied_of(a), s - 8),
{
    let occ = occupied_of(a);
    let info = a[INFO as int];
    let e = info & ENPASSANT_FLAG;
    let ep = enpassant_of(info);
    lemma_bb_of_exists(|u: int| black_pawn_attack(s, u));
    lemma_bb_of_exists(|u: int| crate::attacks::black_pawn_step(s, occ, u));
    if bit(black_pawn_bb(s) & (white_of(a) | ep), t) {
        assert(black_pawn_attack(s, t));
        if bit(white_of(a), t) {
            assert forall|p: int| 6 <= p < 12 implies !bit(#[trigger] a[p], t) by {
                assert(!(bit(a[0], t) && bit(a[p], t)));
                assert(!(bit(a[1], t) && bit(a[p], t)));
                assert(!(bit(a[2], t) && bit(a[p], t)));
                assert(!(bit(a[3], t) && bit(a[p], t)));
                assert(!(bit(a[4], t) && bit(a[p], t)));
                assert(!(bit(a[5], t) && bit(a[p], t)));
            }
            assert(!bit(black_of(a), t));
        } else {
            assert(bit(ep, t));
            assert(e < 64);
            assert(ep == square_bb(e as int));
            assert(t == e);
            assert(!bit(occ, e as int));
            assert(!bit(black_of(a), t));
        }
        lemma_king_not_attacked(a, t);
        if bit(a[KING_W as int], t) {
            lemma_black_attacks_back(a, 6, s, t, occ);
        }
    } else {
        assert(crate::attacks::black_pawn_step(s, occ, t));
        assert(!bit(occ, t));
        assert(!bit(black_of(a), t));
    }
}

/// Every legal move of black from a valid position keeps it valid.
proof fn lemma_legal_move_black_valid(a: Seq<u64>, i: int)
    requires
        valid_position(a),
        !white_turn(a),
        0 <= i < legal_moves(a).len(),
    ensures
        valid_position(make_move_black_spec(a, legal_moves(a)[i])),
{
    lemma_valid_sound(a);
    law_legal_moves_leave_king_safe(a, i);
    reveal(legal_moves);
    let m = legal_moves(a)[i];
    let k = own_king_sq(a);
    let occ = occupied_of(a);
    let team = black_of(a);
    let lk = legal_king_moves(a);
    let lc = legal_castle_moves(a);
    let so = safe_moves(a, other_moves_spec(a));
    assert(legal_moves(a) == lk + lc + so);
    vstd::std_specs::bits::axiom_u64_trailing_zeros(a[KING_B as int]);
    assert(bit(a[KING_B as int], k));
    if i < lk.len() {
        let targets = king_bb(k) & !team_of(a);
        let ts = squares(targets);
        lemma_bits_from_bounds(targets, 0);
        lemma_bb_of_exists(|u: int| king_step(k, u));
        assert(own_king(a) == a[KING_B as int]);
        let j = lemma_safe_king_steps_member(a, k, ts, occ & !a[KING_B as int], i);
        let t = ts[j];
        assert(m == lk[i]);
        assert(bit(targets, t));
        assert(king_step(k, t) && !bit(team, t));
        lemma_king_not_attacked(a, t);
        if bit(a[KING_W as int], t) {
            lemma_black_attacks_back(a, 11, k, t, occ);
        }
        if a[INFO as int] & BLACK_KINGSIDE_RIGHTS != 0 || a[INFO as int] & BLACK_QUEENSIDE_RIGHTS
            != 0 {
            assert(bit(square_bb(k), 59));
        }
        lemma_move_code(k, t, Prom::NoProm);
        lemma_piece_move_black_valid(a, 11, k, t, Prom::NoProm);
    } else if i < lk.len() + lc.len() {
        let j = i - lk.len();
        assert(m == lc[j]);
        let cond_k = kingside_open(a) && !attacked_by_white(a, k, occ) && !attacked_by_white(
            a,
            58,
            occ,
        ) && !attacked_by_white(a, 57, occ);
        if a[INFO as int] & BLACK_KINGSIDE_RIGHTS != 0 || a[INFO as int] & BLACK_QUEENSIDE_RIGHTS
            != 0 {
            assert(bit(square_bb(k), 59));
        }
        if cond_k && j == 0 {
            lemma_castle_black_valid(a, 57);
        } else {
            lemma_castle_black_valid(a, 61);
        }
    } else {
        let oms = other_moves_spec(a);
        let j = lemma_safe_moves_member(a, oms, i - lk.len() - lc.len());
        assert(m == so[i - lk.len() - lc.len()]);
        assert(m == oms[j]);
        let ep = enpassant_of(a[INFO as int]);
        let pw = pawn_moves(false, squares(a[6]), white_of(a), ep, occ);
        let nw = piece_moves(1, squares(a[7]), team, occ);
        let bw = piece_moves(2, squares(a[8]), team, occ);
        let rw = piece_moves(3, squares(a[9]), team, occ);
        let qw = piece_moves(4, squares(a[10]), team, occ);
        assert(oms == pw + nw + bw + rw + qw);
        if j < pw.len() {
            assert(pw[j] == m);
            lemma_bits_from_bounds(a[6], 0);
            let r = lemma_pawn_moves_member(false, squares(a[6]), white_of(a), ep, occ, m);
            let s = squares(a[6])[r.0];
            lemma_black_pawn_move_facts(a, s, r.1, r.2);
            lemma_piece_move_black_valid(a, 6, s, r.1, r.2);
        } else {
            let (kind, ms, jj) = if j < pw.len() + nw.len() {
                (1int, nw, j - pw.len())
            } else if j < pw.len() + nw.len() + bw.len() {
                (2int, bw, j - pw.len() - nw.len())
            } else if j < pw.len() + nw.len() + bw.len() + rw.len() {
                (3int, rw, j - pw.len() - nw.len() - bw.len())
            } else {
                (4int, qw, j - pw.len() - nw.len() - bw.len() - rw.len())
            };
            assert(ms == piece_moves(kind, squares(a[kind + 6]), team, occ));
            assert(ms[jj] == m);
            lemma_bits_from_bounds(a[kind + 6], 0);
            let r = lemma_piece_moves_member(kind, squares(a[kind + 6]), team, occ, m);
            let s = squares(a[kind + 6])[r.0];
            let t = r.1;
            assert(bit(a[kind + 6], s));
            assert(bit(team, s) && !bit(team, t));
            lemma_king_not_attacked(a, t);
            if bit(a[KING_W as int], t) {
                lemma_black_attacks_back(a, kind + 6, s, t, occ);
            }
            lemma_move_code(s, t, Prom::NoProm);
            lemma_piece_move_black_valid(a, kind + 6, s, t, Prom::NoProm);
        }
    }
}

/// Playing any legal move in a valid position gives a valid position: pieces stay on distinct
/// squares, each side keeps one king, castling rights stay tied to unmoved kings and rooks, the
/// en passant square stays behind a pawn that has just made its double step, and the side that
/// has just moved is not left in check.
pub proof fn law_legal_moves_keep_positions_valid(a: Seq<u64>, i: int)
    requires
        valid_position(a),
        0 <= i < legal_moves(a).len(),
    ensures
        valid_position(make_move_spec(a, legal_moves(a)[i])),
{
    if white_turn(a) {
        lemma_legal_move_white_valid(a, i);
    } else {
        lemma_legal_move_black_valid(a, i);
    }
}

/// Every position reached by the first `ms.len()` legal moves of a valid position is safe
/// for perft at `depth`.
proof fn lemma_valid_perft_safe_all(depth: int, a: Seq<u64>, ms: Seq<u16>)
    requires
        depth >= 1,
        valid_position(a),
        ms.len() <= legal_moves(a).len(),
        forall|j: int| 0 <= j < ms.len() ==> ms[j] == legal_moves(a)[j],
    ensures
        perft_safe_all(depth, a, ms),
    decreases depth, ms.len(),
{
    if ms.len() > 0 {
        lemma_valid_perft_safe_all(depth, a, ms.drop_last());
        law_legal_moves_keep_positions_valid(a, ms.len() - 1);
        law_valid_positions_are_perft_safe(depth, make_move_spec(a, ms.last()));
    }
}

/// From a valid position, every position perft reaches at any positive depth has a king to
/// move.
pub proof fn law_valid_positions_are_perft_safe(depth: int, a: Seq<u64>)
    requires
        depth >= 1,
        valid_position(a),
    ensures
        perft_safe(depth, a),
    decreases depth, 0int,
{
    if depth >= 3 {
        lemma_valid_perft_safe_all(depth - 1, a, legal_moves(a));
    }
}

/// Perft can count from every valid position at every positive depth: the condition that
/// `perft` and `checked_perft` put on the position itself always holds there.
pub proof fn law_perft_root_safe_from_valid_positions(depth: int, a: Seq<u64>)
    requires
        depth >= 1,
        valid_position(a),
    ensures
        perft_root_safe(depth, a),
{
    lemma_valid_perft_safe_all(depth, a, legal_moves(a));
}

} // verus!
