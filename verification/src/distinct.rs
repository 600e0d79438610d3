//! The legal move list names each move once.
use vstd::prelude::*;
use crate::bitboard::{bit, bits_from, squares, lemma_bits_from_bounds, group_bits};
use crate::moves::{Prom, move_code, prom_bits, lemma_move_code, from_sq, to_sq, prom_of};
use crate::movegen::{single_moves, promo_codes, promo_moves, piece_moves, pawn_moves,
    piece_attack_bb, pawn_targets, pawn_promotes, other_moves_spec, side_base, team_of, opps_of};
use crate::board::{occupied_of, INFO};
use crate::fen::white_turn;
use crate::parsing::enpassant_of;
use crate::roundtrip::pieces_disjoint;
use crate::movegen::{safe_moves, safe_king_steps, leaves_king_safe, legal_moves, legal_king_moves,
    legal_castle_moves, kingside_open, queenside_open, kingside_to, queenside_to};
use crate::safety::{sound_position, own_king};
use crate::fen::own_king_sq;
use crate::attacks::{king_bb, king_step};
use crate::bitboard::lemma_bb_of_exists;
use vstd::std_specs::bits::axiom_u64_trailing_zeros;

verus! {

/// The squares `ts` are on the board and strictly increasing.
pub open spec fn sorted_squares(ts: Seq<int>) -> bool {
    &&& forall|k: int| 0 <= k < ts.len() ==> 0 <= #[trigger] ts[k] < 64
    &&& forall|i: int, j: int| 0 <= i < j < ts.len() ==> ts[i] < ts[j]
}

/// The squares of a bitboard come in increasing order.
proof fn lemma_bits_from_sorted(b: u64, i: int)
    requires
        0 <= i,
    ensures
        sorted_squares(bits_from(b, i)),
    decreases 64 - i,
{
    lemma_bits_from_bounds(b, i);
    if i < 64 {
        lemma_bits_from_sorted(b, i + 1);
        lemma_bits_from_bounds(b, i + 1);
        let tail = bits_from(b, i + 1);
        if bit(b, i) {
            let s = bits_from(b, i);
            assert forall|x: int, y: int| 0 <= x < y < s.len() implies s[x] < s[y] by {
                assert(s[y] == tail[y - 1]);
                if x > 0 {
                    assert(s[x] == tail[x - 1]);
                }
            }
        }
    }
}

/// The squares of a bitboard come in increasing order.
pub proof fn lemma_squares_sorted(b: u64)
    ensures
        sorted_squares(squares(b)),
{
    lemma_bits_from_sorted(b, 0);
}

/// Decoding a move code built from two squares and a promotion.
proof fn lemma_decode(f: int, t: int, p: Prom)
    requires
        0 <= f < 64,
        0 <= t < 64,
    ensures
        from_sq(move_code(f, t) | prom_bits(p)) == f,
        to_sq(move_code(f, t) | prom_bits(p)) == t,
        prom_of(move_code(f, t) | prom_bits(p)) == p,
        from_sq(move_code(f, t)) == f,
        to_sq(move_code(f, t)) == t,
        prom_of(move_code(f, t)) == Prom::NoProm,
{
    lemma_move_code(f, t, p);
    lemma_move_code(f, t, Prom::NoProm);
}

/// The moves from `from` to sorted squares are distinct and start on `from`.
proof fn lemma_single_moves_distinct(from: int, ts: Seq<int>)
    requires
        0 <= from < 64,
        sorted_squares(ts),
    ensures
        single_moves(from, ts).len() == ts.len(),
        single_moves(from, ts).no_duplicates(),
        forall|k: int|
            0 <= k < ts.len() ==> #[trigger] single_moves(from, ts)[k] == move_code(from, ts[k]),
        forall|k: int|
            0 <= k < ts.len() ==> from_sq(#[trigger] single_moves(from, ts)[k]) == from,
    decreases ts.len(),
{
    if ts.len() > 0 {
        let rest = ts.drop_last();
        lemma_single_moves_distinct(from, rest);
        let sm = single_moves(from, ts);
        assert forall|k: int| 0 <= k < ts.len() implies #[trigger] sm[k] == move_code(from, ts[k]) by {
            if k < rest.len() {
                assert(rest[k] == ts[k]);
            }
        }
        assert forall|k: int| 0 <= k < ts.len() implies from_sq(#[trigger] sm[k]) == from by {
            lemma_decode(from, ts[k], Prom::NoProm);
        }
        assert forall|i: int, j: int| 0 <= i < sm.len() && 0 <= j < sm.len() && i != j implies sm[i]
            != sm[j] by {
            lemma_decode(from, ts[i], Prom::NoProm);
            lemma_decode(from, ts[j], Prom::NoProm);
        }
    }
}

/// The promotion moves from `from` to sorted squares are distinct and start on `from`.
proof fn lemma_promo_moves_distinct(from: int, ts: Seq<int>)
    requires
        0 <= from < 64,
        sorted_squares(ts),
    ensures
        promo_moves(from, ts).len() == 4 * ts.len(),
        promo_moves(from, ts).no_duplicates(),
        forall|k: int|
            0 <= k < promo_moves(from, ts).len() ==> from_sq(#[trigger] promo_moves(from, ts)[k])
                == from,
        forall|k: int|
            0 <= k < promo_moves(from, ts).len() ==> exists|j: int|
                0 <= j < ts.len() && to_sq(#[trigger] promo_moves(from, ts)[k]) == ts[j],
    decreases ts.len(),
{
    if ts.len() > 0 {
        let rest = ts.drop_last();
        lemma_promo_moves_distinct(from, rest);
        let pm = promo_moves(from, ts);
        let old = promo_moves(from, rest);
        let last = ts.last();
        let codes = promo_codes(from, last);
        assert(pm == old + codes);
        lemma_decode(from, last, Prom::Queen);
        lemma_decode(from, last, Prom::Bishop);
        lemma_decode(from, last, Prom::Knight);
        lemma_decode(from, last, Prom::Rook);
        assert forall|k: int| 0 <= k < pm.len() implies from_sq(#[trigger] pm[k]) == from by {
            if k < old.len() {
                assert(pm[k] == old[k]);
            } else {
                assert(pm[k] == codes[k - old.len()]);
            }
        }
        assert forall|k: int| 0 <= k < pm.len() implies exists|j: int|
            0 <= j < ts.len() && to_sq(#[trigger] pm[k]) == ts[j] by {
            if k < old.len() {
                assert(pm[k] == old[k]);
                let j = choose|j: int| 0 <= j < rest.len() && to_sq(old[k]) == rest[j];
                assert(ts[j] == rest[j]);
            } else {
                assert(pm[k] == codes[k - old.len()]);
                assert(to_sq(pm[k]) == ts[ts.len() - 1]);
            }
        }
        assert forall|i: int, j: int| 0 <= i < pm.len() && 0 <= j < pm.len() && i != j implies pm[i]
            != pm[j] by {
            if i < old.len() && j < old.len() {
                assert(pm[i] == old[i] && pm[j] == old[j]);
            } else if i >= old.len() && j >= old.len() {
                assert(pm[i] == codes[i - old.len()] && pm[j] == codes[j - old.len()]);
            } else {
                let (x, y) = if i < old.len() {
                    (i, j)
                } else {
                    (j, i)
                };
                assert(pm[x] == old[x]);
                assert(pm[y] == codes[y - old.len()]);
                let jj = choose|jj: int| 0 <= jj < rest.len() && to_sq(old[x]) == rest[jj];
                assert(rest[jj] == ts[jj] && ts[jj] < last);
            }
        }
    }
}


/// Every move of `ms` starts on a square of `ps`.
pub open spec fn starts_in(ms: Seq<u16>, ps: Seq<int>) -> bool {
    forall|k: int| 0 <= k < ms.len() ==> ps.contains(from_sq(#[trigger] ms[k]))
}

/// Appending the distinct moves of the last of sorted squares to distinct moves of the
/// squares before it keeps the moves distinct.
proof fn lemma_append_chunk(old: Seq<u16>, chunk: Seq<u16>, ps: Seq<int>)
    requires
        ps.len() > 0,
        sorted_squares(ps),
        old.no_duplicates(),
        chunk.no_duplicates(),
        starts_in(old, ps.drop_last()),
        forall|k: int| 0 <= k < chunk.len() ==> from_sq(#[trigger] chunk[k]) == ps.last(),
    ensures
        (old + chunk).no_duplicates(),
        starts_in(old + chunk, ps),
{
    let all = old + chunk;
    let rest = ps.drop_last();
    assert forall|k: int| 0 <= k < all.len() implies ps.contains(from_sq(#[trigger] all[k])) by {
        if k < old.len() {
            assert(all[k] == old[k]);
            assert(rest.contains(from_sq(old[k])));
            let j = choose|j: int| 0 <= j < rest.len() && rest[j] == from_sq(old[k]);
            assert(ps[j] == rest[j]);
        } else {
            assert(all[k] == chunk[k - old.len()]);
            assert(ps[ps.len() - 1] == from_sq(all[k]));
        }
    }
    assert(starts_in(all, ps));
    assert forall|i: int, j: int| 0 <= i < all.len() && 0 <= j < all.len() && i != j implies all[i]
        != all[j] by {
        if i < old.len() && j < old.len() {
            assert(all[i] == old[i] && all[j] == old[j]);
        } else if i >= old.len() && j >= old.len() {
            assert(all[i] == chunk[i - old.len()] && all[j] == chunk[j - old.len()]);
        } else {
            let (x, y) = if i < old.len() {
                (i, j)
            } else {
                (j, i)
            };
            assert(all[x] == old[x]);
            assert(all[y] == chunk[y - old.len()]);
            assert(rest.contains(from_sq(old[x])));
            let jj = choose|jj: int| 0 <= jj < rest.len() && rest[jj] == from_sq(old[x]);
            assert(rest[jj] == ps[jj] && ps[jj] < ps[ps.len() - 1]);
        }
    }
}

/// The moves of pieces of one kind on sorted squares are distinct and start on those squares.
pub proof fn lemma_piece_moves_distinct(kind: int, ps: Seq<int>, team: u64, occ: u64)
    requires
        sorted_squares(ps),
    ensures
        piece_moves(kind, ps, team, occ).no_duplicates(),
        starts_in(piece_moves(kind, ps, team, occ), ps),
    decreases ps.len(),
{
    if ps.len() > 0 {
        let rest = ps.drop_last();
        lemma_piece_moves_distinct(kind, rest, team, occ);
        let ts = squares(piece_attack_bb(kind, ps.last(), occ) & !team);
        lemma_squares_sorted(piece_attack_bb(kind, ps.last(), occ) & !team);
        lemma_single_moves_distinct(ps.last(), ts);
        lemma_append_chunk(piece_moves(kind, rest, team, occ), single_moves(ps.last(), ts), ps);
    }
}

/// The pawn moves from sorted squares are distinct and start on those squares.
pub proof fn lemma_pawn_moves_distinct(white: bool, ps: Seq<int>, opps: u64, ep: u64, occ: u64)
    requires
        sorted_squares(ps),
    ensures
        pawn_moves(white, ps, opps, ep, occ).no_duplicates(),
        starts_in(pawn_moves(white, ps, opps, ep, occ), ps),
    decreases ps.len(),
{
    if ps.len() > 0 {
        let rest = ps.drop_last();
        let p = ps.last();
        lemma_pawn_moves_distinct(white, rest, opps, ep, occ);
        let ts = squares(pawn_targets(white, p, opps, ep, occ));
        lemma_squares_sorted(pawn_targets(white, p, opps, ep, occ));
        if pawn_promotes(white, p) {
            lemma_promo_moves_distinct(p, ts);
            lemma_append_chunk(pawn_moves(white, rest, opps, ep, occ), promo_moves(p, ts), ps);
        } else {
            lemma_single_moves_distinct(p, ts);
            lemma_append_chunk(pawn_moves(white, rest, opps, ep, occ), single_moves(p, ts), ps);
        }
    }
}


/// The moves of `ms` start on squares of `b`, given the squares of `b` as a list.
proof fn lemma_starts_on_board(ms: Seq<u16>, b: u64)
    requires
        starts_in(ms, squares(b)),
    ensures
        forall|k: int| 0 <= k < ms.len() ==> bit(b, from_sq(#[trigger] ms[k])),
{
    lemma_bits_from_bounds(b, 0);
    assert forall|k: int| 0 <= k < ms.len() implies bit(b, from_sq(#[trigger] ms[k])) by {
        assert(squares(b).contains(from_sq(ms[k])));
        let j = choose|j: int| 0 <= j < squares(b).len() && squares(b)[j] == from_sq(ms[k]);
    }
}

/// Square `f` holds one of the `n` piece boards from `base` on.
pub open spec fn piece_bit_below(a: Seq<u64>, base: int, n: int, f: int) -> bool {
    exists|y: int| 0 <= y < n && #[trigger] bit(a[base + y], f)
}

/// Appending distinct moves that start on the next piece board to distinct moves that start
/// on the boards before it keeps the moves distinct, when no two pieces share a square.
proof fn lemma_append_group(xs: Seq<u16>, ys: Seq<u16>, a: Seq<u64>, base: int, n: int)
    requires
        0 <= base,
        0 <= n,
        base + n < 12,
        pieces_disjoint(a),
        xs.no_duplicates(),
        ys.no_duplicates(),
        forall|k: int| 0 <= k < xs.len() ==> piece_bit_below(a, base, n, from_sq(#[trigger] xs[k])),
        forall|k: int| 0 <= k < ys.len() ==> bit(a[base + n], from_sq(#[trigger] ys[k])),
    ensures
        (xs + ys).no_duplicates(),
        forall|k: int|
            0 <= k < (xs + ys).len() ==> piece_bit_below(a, base, n + 1, from_sq(#[trigger] (xs
                + ys)[k])),
{
    let all = xs + ys;
    assert forall|k: int| 0 <= k < all.len() implies piece_bit_below(
        a,
        base,
        n + 1,
        from_sq(#[trigger] all[k]),
    ) by {
        if k < xs.len() {
            assert(all[k] == xs[k]);
            assert(piece_bit_below(a, base, n, from_sq(xs[k])));
            let y = choose|y: int| 0 <= y < n && #[trigger] bit(a[base + y], from_sq(xs[k]));
            assert(bit(a[base + y], from_sq(all[k])));
        } else {
            assert(all[k] == ys[k - xs.len()]);
            assert(bit(a[base + n], from_sq(all[k])));
        }
    }
    assert forall|i: int, j: int| 0 <= i < all.len() && 0 <= j < all.len() && i != j implies all[i]
        != all[j] by {
        if i < xs.len() && j < xs.len() {
            assert(all[i] == xs[i] && all[j] == xs[j]);
        } else if i >= xs.len() && j >= xs.len() {
            assert(all[i] == ys[i - xs.len()] && all[j] == ys[j - xs.len()]);
        } else {
            let (x, y) = if i < xs.len() {
                (i, j)
            } else {
                (j, i)
            };
            assert(all[x] == xs[x]);
            assert(all[y] == ys[y - xs.len()]);
            let f = from_sq(xs[x]);
            assert(piece_bit_below(a, base, n, f));
            let yy = choose|yy: int| 0 <= yy < n && #[trigger] bit(a[base + yy], f);
            if all[x] == all[y] {
                assert(bit(a[base + n], f));
                assert(!(bit(a[base + yy], f) && bit(a[base + n], f)));
            }
        }
    }
}

/// The moves of the pieces of one kind of a side are distinct and start on those pieces.
proof fn lemma_group(a: Seq<u64>, b: int, x: int, team: u64, occ: u64)
    requires
        0 <= b,
        1 <= x,
        b + x < 15,
        a.len() == 15,
    ensures
        piece_moves(x, squares(a[b + x]), team, occ).no_duplicates(),
        forall|k: int|
            0 <= k < piece_moves(x, squares(a[b + x]), team, occ).len() ==> bit(
                a[b + x],
                from_sq(#[trigger] piece_moves(x, squares(a[b + x]), team, occ)[k]),
            ),
{
    lemma_squares_sorted(a[b + x]);
    lemma_piece_moves_distinct(x, squares(a[b + x]), team, occ);
    lemma_starts_on_board(piece_moves(x, squares(a[b + x]), team, occ), a[b + x]);
}

/// The moves of the pawns, knights, bishops, rooks and queens of the side to move are
/// distinct, and each starts on a square of one of those pieces.
proof fn lemma_other_moves_distinct(a: Seq<u64>)
    requires
        a.len() == 15,
        pieces_disjoint(a),
    ensures
        other_moves_spec(a).no_duplicates(),
        forall|k: int|
            0 <= k < other_moves_spec(a).len() ==> piece_bit_below(
                a,
                side_base(white_turn(a)),
                5,
                from_sq(#[trigger] other_moves_spec(a)[k]),
            ),
{
    let w = white_turn(a);
    let b = side_base(w);
    let team = team_of(a);
    let occ = occupied_of(a);
    let ep = enpassant_of(a[INFO as int]);
    let pw = pawn_moves(w, squares(a[b]), opps_of(a), ep, occ);
    lemma_squares_sorted(a[b]);
    lemma_pawn_moves_distinct(w, squares(a[b]), opps_of(a), ep, occ);
    lemma_starts_on_board(pw, a[b]);
    assert forall|k: int| 0 <= k < pw.len() implies piece_bit_below(a, b, 1, from_sq(#[trigger] pw[k])) by {
        assert(bit(a[b + 0], from_sq(pw[k])));
    }
    let g1 = piece_moves(1, squares(a[b + 1]), team, occ);
    let g2 = piece_moves(2, squares(a[b + 2]), team, occ);
    let g3 = piece_moves(3, squares(a[b + 3]), team, occ);
    let g4 = piece_moves(4, squares(a[b + 4]), team, occ);
    lemma_group(a, b, 1, team, occ);
    lemma_group(a, b, 2, team, occ);
    lemma_group(a, b, 3, team, occ);
    lemma_group(a, b, 4, team, occ);
    lemma_append_group(pw, g1, a, b, 1);
    lemma_append_group(pw + g1, g2, a, b, 2);
    lemma_append_group(pw + g1 + g2, g3, a, b, 3);
    lemma_append_group(pw + g1 + g2 + g3, g4, a, b, 4);
    let acc = pw + g1 + g2 + g3 + g4;
    assert(other_moves_spec(a) == acc);
}


/// Two lists without repeats, sharing no move, make a list without repeats.
proof fn lemma_concat_distinct(xs: Seq<u16>, ys: Seq<u16>)
    requires
        xs.no_duplicates(),
        ys.no_duplicates(),
        forall|i: int, j: int| 0 <= i < xs.len() && 0 <= j < ys.len() ==> xs[i] != ys[j],
    ensures
        (xs + ys).no_duplicates(),
{
    let all = xs + ys;
    assert forall|i: int, j: int| 0 <= i < all.len() && 0 <= j < all.len() && i != j implies all[i]
        != all[j] by {
        if i < xs.len() && j < xs.len() {
            assert(all[i] == xs[i] && all[j] == xs[j]);
        } else if i >= xs.len() && j >= xs.len() {
            assert(all[i] == ys[i - xs.len()] && all[j] == ys[j - xs.len()]);
        } else if i < xs.len() {
            assert(all[i] == xs[i] && all[j] == ys[j - xs.len()]);
        } else {
            assert(all[j] == xs[j] && all[i] == ys[i - xs.len()]);
        }
    }
}

/// Keeping the moves that leave the king safe keeps a list without repeats, and keeps only
/// moves of the list.
proof fn lemma_safe_moves_distinct(a: Seq<u64>, ms: Seq<u16>)
    requires
        ms.no_duplicates(),
    ensures
        safe_moves(a, ms).no_duplicates(),
        forall|i: int| 0 <= i < safe_moves(a, ms).len() ==> ms.contains(#[trigger] safe_moves(a, ms)[i]),
    decreases ms.len(),
{
    if ms.len() > 0 {
        let front = ms.drop_last();
        assert(front.no_duplicates()) by {
            assert forall|i: int, j: int| 0 <= i < front.len() && 0 <= j < front.len() && i != j
                implies front[i] != front[j] by {
                assert(front[i] == ms[i] && front[j] == ms[j]);
            }
        }
        lemma_safe_moves_distinct(a, front);
        let rest = safe_moves(a, front);
        let all = safe_moves(a, ms);
        assert forall|i: int| 0 <= i < rest.len() implies ms.contains(#[trigger] rest[i]) by {
            assert(front.contains(rest[i]));
            let j = choose|j: int| 0 <= j < front.len() && front[j] == rest[i];
            assert(ms[j] == front[j]);
        }
        if leaves_king_safe(a, ms.last()) {
            assert(all == rest.push(ms.last()));
            assert forall|i: int| 0 <= i < rest.len() implies rest[i] != ms.last() by {
                assert(front.contains(rest[i]));
                let j = choose|j: int| 0 <= j < front.len() && front[j] == rest[i];
                assert(ms[j] == front[j]);
            }
            assert forall|i: int| 0 <= i < all.len() implies ms.contains(#[trigger] all[i]) by {
                if i < rest.len() {
                    assert(all[i] == rest[i]);
                } else {
                    assert(ms[ms.len() - 1] == all[i]);
                }
            }
            assert forall|i: int, j: int| 0 <= i < all.len() && 0 <= j < all.len() && i != j
                implies all[i] != all[j] by {
                if i < rest.len() && j < rest.len() {
                    assert(all[i] == rest[i] && all[j] == rest[j]);
                } else if i < rest.len() {
                    assert(all[i] == rest[i]);
                } else {
                    assert(all[j] == rest[j]);
                }
            }
        }
    }
}

/// The safe king steps from `k` to sorted squares are distinct, start on `k` and go to one of
/// those squares.
proof fn lemma_safe_king_steps_distinct(a: Seq<u64>, k: int, ts: Seq<int>, occ: u64)
    requires
        0 <= k < 64,
        sorted_squares(ts),
    ensures
        safe_king_steps(a, k, ts, occ).no_duplicates(),
        forall|i: int|
            0 <= i < safe_king_steps(a, k, ts, occ).len() ==> from_sq(
                #[trigger] safe_king_steps(a, k, ts, occ)[i],
            ) == k && ts.contains(to_sq(safe_king_steps(a, k, ts, occ)[i])),
    decreases ts.len(),
{
    if ts.len() > 0 {
        let front = ts.drop_last();
        lemma_safe_king_steps_distinct(a, k, front, occ);
        let rest = safe_king_steps(a, k, front, occ);
        let all = safe_king_steps(a, k, ts, occ);
        let last = ts.last();
        lemma_decode(k, last, Prom::NoProm);
        assert forall|i: int| 0 <= i < rest.len() implies from_sq(#[trigger] rest[i]) == k
            && ts.contains(to_sq(rest[i])) && to_sq(rest[i]) < last by {
            assert(front.contains(to_sq(rest[i])));
            let j = choose|j: int| 0 <= j < front.len() && front[j] == to_sq(rest[i]);
            assert(ts[j] == front[j]);
        }
        if all != rest {
            assert(all == rest.push(move_code(k, last)));
            assert forall|i: int| 0 <= i < all.len() implies from_sq(#[trigger] all[i]) == k
                && ts.contains(to_sq(all[i])) by {
                if i < rest.len() {
                    assert(all[i] == rest[i]);
                } else {
                    assert(ts[ts.len() - 1] == to_sq(all[i]));
                }
            }
            assert forall|i: int, j: int| 0 <= i < all.len() && 0 <= j < all.len() && i != j
                implies all[i] != all[j] by {
                if i < rest.len() && j < rest.len() {
                    assert(all[i] == rest[i] && all[j] == rest[j]);
                } else if i < rest.len() {
                    assert(all[i] == rest[i]);
                } else {
                    assert(all[j] == rest[j]);
                }
            }
        }
    }
}


/// The legal moves of a position name each move once: in a position where no two pieces share
/// a square, the side to move has one king, and castling rights remain only while that king
/// stands on its starting square.
pub proof fn law_legal_moves_distinct(a: Seq<u64>)
    requires
        sound_position(a),
    ensures
        legal_moves(a).no_duplicates(),
{
    reveal(legal_moves);
    let w = white_turn(a);
    let b = side_base(w);
    let k = own_king_sq(a);
    let king = own_king(a);
    let occ = occupied_of(a);
    let lk = legal_king_moves(a);
    let lc = legal_castle_moves(a);
    let oms = other_moves_spec(a);
    let so = safe_moves(a, oms);
    assert(legal_moves(a) == lk + lc + so);
    axiom_u64_trailing_zeros(king);
    assert(0 <= k < 64);
    assert(king == a[b + 5]);
    assert(bit(a[b + 5], k));
    // the king steps
    let targets = king_bb(k) & !team_of(a);
    let ts = squares(targets);
    lemma_squares_sorted(targets);
    lemma_bits_from_bounds(targets, 0);
    lemma_bb_of_exists(|t: int| king_step(k, t));
    lemma_safe_king_steps_distinct(a, k, ts, occ & !king);
    assert forall|i: int| 0 <= i < lk.len() implies from_sq(#[trigger] lk[i]) == k && king_step(
        k,
        to_sq(lk[i]),
    ) by {
        broadcast use group_bits;

        assert(ts.contains(to_sq(lk[i])));
        let j = choose|j: int| 0 <= j < ts.len() && ts[j] == to_sq(lk[i]);
        assert(bit(targets, ts[j]));
        assert(bit(king_bb(k), ts[j]));
    }
    // castling
    let kt = kingside_to(w);
    let qt = queenside_to(w);
    lemma_decode(k, kt, Prom::NoProm);
    lemma_decode(k, qt, Prom::NoProm);
    assert forall|i: int| 0 <= i < lc.len() implies from_sq(#[trigger] lc[i]) == k && !king_step(
        k,
        to_sq(lc[i]),
    ) && (lc[i] == move_code(k, kt) || lc[i] == move_code(k, qt)) by {
        if kingside_open(a) || queenside_open(a) {
            assert(k == if w {
                3int
            } else {
                59int
            });
        }
    }
    assert(lc.no_duplicates()) by {
        assert forall|i: int, j: int| 0 <= i < lc.len() && 0 <= j < lc.len() && i != j implies lc[i]
            != lc[j] by {
            assert(lc.len() <= 2);
            if lc.len() == 2 {
                assert(lc[0] == move_code(k, kt) && lc[1] == move_code(k, qt));
            }
        }
    }
    lemma_concat_distinct(lk, lc);
    // the other pieces
    lemma_other_moves_distinct(a);
    lemma_safe_moves_distinct(a, oms);
    let kl = lk + lc;
    assert forall|i: int, j: int| 0 <= i < kl.len() && 0 <= j < so.len() implies kl[i] != so[j] by {
        assert(from_sq(kl[i]) == k) by {
            if i < lk.len() {
                assert(kl[i] == lk[i]);
            } else {
                assert(kl[i] == lc[i - lk.len()]);
            }
        }
        assert(oms.contains(so[j]));
        let jj = choose|jj: int| 0 <= jj < oms.len() && oms[jj] == so[j];
        let f = from_sq(oms[jj]);
        assert(piece_bit_below(a, b, 5, f));
        let y = choose|y: int| 0 <= y < 5 && #[trigger] bit(a[b + y], f);
        assert(!(bit(a[b + y], k) && bit(a[b + 5], k)));
    }
    lemma_concat_distinct(kl, so);
}

} // verus!
