use vstd::prelude::*;
use vstd::std_specs::bits::{u64_trailing_zeros, axiom_u64_trailing_zeros};
use crate::bitboard::{square_bb, bit, group_bits, lemma_test_square};
use crate::board::{
    INFO, TURN_FLAG, FULLMOVE_FLAG, HALFMOVE_FLAG, WHITE_KINGSIDE_RIGHTS, WHITE_QUEENSIDE_RIGHTS,
    BLACK_KINGSIDE_RIGHTS, BLACK_QUEENSIDE_RIGHTS,
};
use crate::fen::{
    white_turn, make_move_spec, make_move_white_spec, make_move_black_spec, next_halfmove,
    promote, xor_first,
};
use crate::moves::{
    Prom, move_code, prom_bits, move_name, parse_move, lower_chars, ascii_lower, square_chars,
    prom_chars, lemma_move_code, from_sq, to_sq, prom_of, prom_from_chars, square_of_chars, code_of,
    moves_text, lemma_move_fields,
};
use crate::parsing::{enpassant_of, lan_square, file_char, rank_char, file_index, rank_index};
use crate::roundtrip::{lemma_square_chars, lemma_split_len};
use crate::parsing::split_on;
use crate::movegen::{
    legal_moves, pseudo_moves, single_moves, safe_king_steps, safe_moves, king_moves_spec,
    castle_moves_spec, other_moves_spec, legal_king_moves, legal_castle_moves,
};

verus! {

/// The castling rights held in an information word.
pub open spec fn rights_of(info: u64) -> u64 {
    info & 0x1e00_0000_0000u64
}

proof fn lemma_white_info(ep: u64, h: u64, info: u64, r1: bool, r2: bool, r3: bool, r4: bool)
    by (bit_vector)
    requires
        ep <= 64,
        h <= 0xffff,
    ensures
        ((ep | (((h + 1) as u64) << 8u64) | (info & 0xff_ff00_0000u64) | (if r1 {
            0x200_0000_0000u64
        } else {
            0u64
        }) | (if r2 {
            0x400_0000_0000u64
        } else {
            0u64
        }) | (if r3 {
            0x800_0000_0000u64
        } else {
            0u64
        }) | (if r4 {
            0x1000_0000_0000u64
        } else {
            0u64
        })) & 0x100_0000_0000u64) == 0,
        ((ep | 0u64 | (info & 0xff_ff00_0000u64) | (if r1 {
            0x200_0000_0000u64
        } else {
            0u64
        }) | (if r2 {
            0x400_0000_0000u64
        } else {
            0u64
        }) | (if r3 {
            0x800_0000_0000u64
        } else {
            0u64
        }) | (if r4 {
            0x1000_0000_0000u64
        } else {
            0u64
        })) & 0x100_0000_0000u64) == 0,
{
}

/// After a move the other side is to move.
pub proof fn law_make_move_flips_turn(a: Seq<u64>, m: u16)
    requires
        a.len() == 15,
    ensures
        white_turn(make_move_spec(a, m)) == !white_turn(a),
{
    let info = a[INFO as int];
    let b = make_move_spec(a, m);
    assert(b.len() == 15);
    if white_turn(a) {
        let from = square_bb(crate::moves::from_sq(m));
        axiom_u64_trailing_zeros(from << 8u64);
        let h = (info & HALFMOVE_FLAG) >> 8;
        assert(h <= 0xffff) by (bit_vector)
            requires
                h == (info & 0xff_ff00u64) >> 8u64,
        ;
        let ep = if (square_bb(crate::moves::to_sq(m)) & 0xff00_0000 != 0) && (from & a[0] & 0xff00
            != 0) {
            u64_trailing_zeros(from << 8u64) as u64
        } else {
            64u64
        };
        lemma_white_info(
            ep,
            h,
            info,
            info & WHITE_KINGSIDE_RIGHTS != 0 && !(a[5] & from != 0) && (from & 0x01 == 0),
            info & WHITE_QUEENSIDE_RIGHTS != 0 && !(a[5] & from != 0) && (from & 0x80 == 0),
            info & BLACK_KINGSIDE_RIGHTS != 0 && (square_bb(crate::moves::to_sq(m))
                & 0x0100_0000_0000_0000 == 0),
            info & BLACK_QUEENSIDE_RIGHTS != 0 && (square_bb(crate::moves::to_sq(m))
                & 0x8000_0000_0000_0000 == 0),
        );
    } else {
        broadcast use group_bits;

        let x = b[INFO as int];
        assert(TURN_FLAG == square_bb(40)) by {
            assert(0x100_0000_0000u64 == 1u64 << 40u64) by (bit_vector);
        }
        assert(bit(TURN_FLAG, 40));
        assert(bit(x, 40));
        lemma_test_square(x, 40);
    }
}

proof fn lemma_info_rights(ep: u64, hm: u64, fm: u64, info: u64, r1: bool, r2: bool, r3: bool, r4: bool)
    by (bit_vector)
    requires
        ep <= 64,
        hm <= 0x1_0000_00u64,
        fm & !0x1ff_ff00_0000u64 == 0,
        r1 ==> info & 0x200_0000_0000u64 != 0,
        r2 ==> info & 0x400_0000_0000u64 != 0,
        r3 ==> info & 0x800_0000_0000u64 != 0,
        r4 ==> info & 0x1000_0000_0000u64 != 0,
    ensures
        ((ep | hm | fm | (if r1 { 0x200_0000_0000u64 } else { 0u64 }) | (if r2 { 0x400_0000_0000u64 } else { 0u64 }) | (if r3 { 0x800_0000_0000u64 } else { 0u64 }) | (if r4 { 0x1000_0000_0000u64 } else { 0u64 })) & 0x1e00_0000_0000u64) & !(info & 0x1e00_0000_0000u64) == 0,
        ((ep | 0x100_0000_0000u64 | hm | fm | (if r1 { 0x200_0000_0000u64 } else { 0u64 }) | (if r2 { 0x400_0000_0000u64 } else { 0u64 }) | (if r3 { 0x800_0000_0000u64 } else { 0u64 }) | (if r4 { 0x1000_0000_0000u64 } else { 0u64 })) & 0x1e00_0000_0000u64) & !(info
            & 0x1e00_0000_0000u64) == 0,
{
}

proof fn lemma_counter_fields(info: u64, h: u64, hm: u64, fm: u64)
    by (bit_vector)
    requires
        h == (info & 0xff_ff00u64) >> 8u64,
        hm == 0 || hm == ((h + 1) as u64) << 8u64,
    ensures
        hm <= 0x1_0000_00u64,
        (info & 0xff_ff00_0000u64) & !0x1ff_ff00_0000u64 == 0,
        fm <= 0xffff ==> ((fm + 1) as u64) << 24u64 & !0x1ff_ff00_0000u64 == 0,
{
}

/// No move grants castling rights: the rights after a move are among those before it.
pub proof fn law_castling_rights_never_grow(a: Seq<u64>, m: u16)
    requires
        a.len() == 15,
    ensures
        rights_of(make_move_spec(a, m)[INFO as int]) & !rights_of(a[INFO as int]) == 0,
{
    let info = a[INFO as int];
    let from = square_bb(crate::moves::from_sq(m));
    let to = square_bb(crate::moves::to_sq(m));
    let h = (info & HALFMOVE_FLAG) >> 8;
    let hm = next_halfmove(a, from, to);
    if white_turn(a) {
        axiom_u64_trailing_zeros(from << 8u64);
        let ep = if (to & 0xff00_0000 != 0) && (from & a[0] & 0xff00 != 0) {
            u64_trailing_zeros(from << 8u64) as u64
        } else {
            64u64
        };
        let fm = info & FULLMOVE_FLAG;
        lemma_counter_fields(info, h, hm, 0);
        let king_moved = a[5] & from != 0;
        lemma_info_rights(
            ep,
            hm,
            fm,
            info,
            info & WHITE_KINGSIDE_RIGHTS != 0 && !king_moved && (from & 0x01 == 0),
            info & WHITE_QUEENSIDE_RIGHTS != 0 && !king_moved && (from & 0x80 == 0),
            info & BLACK_KINGSIDE_RIGHTS != 0 && (to & 0x0100_0000_0000_0000 == 0),
            info & BLACK_QUEENSIDE_RIGHTS != 0 && (to & 0x8000_0000_0000_0000 == 0),
        );
    } else {
        axiom_u64_trailing_zeros(from >> 8u64);
        let ep = if (to & 0xff_0000_0000 != 0) && (from & a[6] & 0xff_0000_0000_0000 != 0) {
            u64_trailing_zeros(from >> 8u64) as u64
        } else {
            64u64
        };
        let f0 = (info & FULLMOVE_FLAG) >> 24;
        assert(f0 <= 0xffff) by (bit_vector)
            requires
                f0 == (info & 0xff_ff00_0000u64) >> 24u64,
        ;
        let fm = ((f0 + 1) as u64) << 24u64;
        lemma_counter_fields(info, h, hm, f0);
        let king_moved = a[11] & from != 0;
        lemma_info_rights(
            ep,
            hm,
            fm,
            info,
            info & WHITE_KINGSIDE_RIGHTS != 0 && (to & 0x01 == 0),
            info & WHITE_QUEENSIDE_RIGHTS != 0 && (to & 0x80 == 0),
            info & BLACK_KINGSIDE_RIGHTS != 0 && !king_moved && (from & 0x0100_0000_0000_0000 == 0),
            info & BLACK_QUEENSIDE_RIGHTS != 0 && !king_moved && (from & 0x8000_0000_0000_0000
                == 0),
        );
    }
}

/// The fullmove number stored in an information word.
pub open spec fn fullmove_of(info: u64) -> u64 {
    (info & FULLMOVE_FLAG) >> 24
}

/// The halfmove clock stored in an information word.
pub open spec fn halfmove_of(info: u64) -> u64 {
    (info & HALFMOVE_FLAG) >> 8
}

proof fn lemma_info_fullmove(ep: u64, h: u64, hm: u64, info: u64, f: u64, r1: bool, r2: bool, r3: bool, r4: bool)
    by (bit_vector)
    requires
        ep <= 64,
        h < 0xffff,
        hm == 0 || hm == ((h + 1) as u64) << 8u64,
        f < 0xffff,
    ensures
        ((ep | hm | (info & 0xff_ff00_0000u64) | (if r1 { 0x200_0000_0000u64 } else { 0u64 }) | (if r2 { 0x400_0000_0000u64 } else { 0u64 }) | (if r3 { 0x800_0000_0000u64 } else { 0u64 }) | (if r4 { 0x1000_0000_0000u64 } else { 0u64 })) & 0xff_ff00_0000u64) >> 24u64 == (info
            & 0xff_ff00_0000u64) >> 24u64,
        ((ep | 0x100_0000_0000u64 | hm | (((f + 1) as u64) << 24u64) | (if r1 { 0x200_0000_0000u64 } else { 0u64 }) | (if r2 { 0x400_0000_0000u64 } else { 0u64 }) | (if r3 { 0x800_0000_0000u64 } else { 0u64 }) | (if r4 { 0x1000_0000_0000u64 } else { 0u64 })) & 0xff_ff00_0000u64)
            >> 24u64 == f + 1,
{
}

/// The fullmove number grows by one with each black move and stays with each white move
/// (while neither counter is at its maximum, 65535).
pub proof fn law_fullmove_counts_black_moves(a: Seq<u64>, m: u16)
    requires
        a.len() == 15,
        halfmove_of(a[INFO as int]) < 0xffff,
        fullmove_of(a[INFO as int]) < 0xffff,
    ensures
        fullmove_of(make_move_spec(a, m)[INFO as int]) == if white_turn(a) {
            fullmove_of(a[INFO as int])
        } else {
            (fullmove_of(a[INFO as int]) + 1) as u64
        },
{
    let info = a[INFO as int];
    let from = square_bb(crate::moves::from_sq(m));
    let to = square_bb(crate::moves::to_sq(m));
    let h = (info & HALFMOVE_FLAG) >> 8;
    let hm = next_halfmove(a, from, to);
    let f0 = (info & FULLMOVE_FLAG) >> 24;
    if white_turn(a) {
        axiom_u64_trailing_zeros(from << 8u64);
        let ep = if (to & 0xff00_0000 != 0) && (from & a[0] & 0xff00 != 0) {
            u64_trailing_zeros(from << 8u64) as u64
        } else {
            64u64
        };
        let king_moved = a[5] & from != 0;
        lemma_info_fullmove(
            ep,
            h,
            hm,
            info,
            f0,
            info & WHITE_KINGSIDE_RIGHTS != 0 && !king_moved && (from & 0x01 == 0),
            info & WHITE_QUEENSIDE_RIGHTS != 0 && !king_moved && (from & 0x80 == 0),
            info & BLACK_KINGSIDE_RIGHTS != 0 && (to & 0x0100_0000_0000_0000 == 0),
            info & BLACK_QUEENSIDE_RIGHTS != 0 && (to & 0x8000_0000_0000_0000 == 0),
        );
    } else {
        axiom_u64_trailing_zeros(from >> 8u64);
        let ep = if (to & 0xff_0000_0000 != 0) && (from & a[6] & 0xff_0000_0000_0000 != 0) {
            u64_trailing_zeros(from >> 8u64) as u64
        } else {
            64u64
        };
        let king_moved = a[11] & from != 0;
        lemma_info_fullmove(
            ep,
            h,
            hm,
            info,
            f0,
            info & WHITE_KINGSIDE_RIGHTS != 0 && (to & 0x01 == 0),
            info & WHITE_QUEENSIDE_RIGHTS != 0 && (to & 0x80 == 0),
            info & BLACK_KINGSIDE_RIGHTS != 0 && !king_moved && (from & 0x0100_0000_0000_0000 == 0),
            info & BLACK_QUEENSIDE_RIGHTS != 0 && !king_moved && (from & 0x8000_0000_0000_0000
                == 0),
        );
    }
}

/// Every element of `r` occurs in `s`.
pub open spec fn included(r: Seq<u16>, s: Seq<u16>) -> bool {
    forall|i: int| 0 <= i < r.len() ==> s.contains(#[trigger] r[i])
}

proof fn lemma_included_concat(r1: Seq<u16>, s1: Seq<u16>, r2: Seq<u16>, s2: Seq<u16>)
    requires
        included(r1, s1),
        included(r2, s2),
    ensures
        included(r1 + r2, s1 + s2),
{
    assert forall|i: int| 0 <= i < (r1 + r2).len() implies (s1 + s2).contains(#[trigger] (r1
        + r2)[i]) by {
        if i < r1.len() {
            assert((r1 + r2)[i] == r1[i]);
            let j = choose|j: int| 0 <= j < s1.len() && s1[j] == r1[i];
            assert((s1 + s2)[j] == s1[j]);
        } else {
            assert((r1 + r2)[i] == r2[i - r1.len()]);
            let j = choose|j: int| 0 <= j < s2.len() && s2[j] == r2[i - r1.len()];
            assert((s1 + s2)[s1.len() + j] == s2[j]);
        }
    }
}

proof fn lemma_safe_king_steps_included(a: Seq<u64>, k: int, ts: Seq<int>, occupied: u64)
    ensures
        included(safe_king_steps(a, k, ts, occupied), single_moves(k, ts)),
    decreases ts.len(),
{
    if ts.len() > 0 {
        lemma_safe_king_steps_included(a, k, ts.drop_last(), occupied);
        let r = safe_king_steps(a, k, ts.drop_last(), occupied);
        let s = single_moves(k, ts.drop_last());
        let v = crate::moves::move_code(k, ts.last());
        assert forall|i: int| 0 <= i < safe_king_steps(a, k, ts, occupied).len() implies single_moves(
            k,
            ts,
        ).contains(#[trigger] safe_king_steps(a, k, ts, occupied)[i]) by {
            let ri = safe_king_steps(a, k, ts, occupied)[i];
            if i < r.len() {
                assert(ri == r[i]);
                let j = choose|j: int| 0 <= j < s.len() && s[j] == r[i];
                assert(s.push(v)[j] == s[j]);
            } else {
                assert(ri == v);
                assert(s.push(v)[s.len() as int] == v);
            }
        }
    }
}

proof fn lemma_safe_moves_included(a: Seq<u64>, ms: Seq<u16>)
    ensures
        included(safe_moves(a, ms), ms),
    decreases ms.len(),
{
    if ms.len() > 0 {
        lemma_safe_moves_included(a, ms.drop_last());
        let r = safe_moves(a, ms.drop_last());
        let s = ms.drop_last();
        assert forall|i: int| 0 <= i < safe_moves(a, ms).len() implies ms.contains(
            #[trigger] safe_moves(a, ms)[i],
        ) by {
            let ri = safe_moves(a, ms)[i];
            if i < r.len() {
                assert(ri == r[i]);
                let j = choose|j: int| 0 <= j < s.len() && s[j] == r[i];
                assert(ms[j] == s[j]);
            } else {
                assert(ri == ms.last());
                assert(ms[ms.len() - 1] == ms.last());
            }
        }
    }
}

/// Every legal move is a pseudo-legal move.
pub proof fn law_legal_moves_are_pseudo_legal(a: Seq<u64>)
    ensures
        included(legal_moves(a), pseudo_moves(a)),
{
    reveal(legal_moves);
    let k = crate::fen::own_king_sq(a);
    let king = if white_turn(a) {
        a[5]
    } else {
        a[11]
    };
    let ts = crate::bitboard::squares(crate::attacks::king_bb(k) & !crate::movegen::team_of(a));
    lemma_safe_king_steps_included(a, k, ts, crate::board::occupied_of(a) & !king);
    let lc = legal_castle_moves(a);
    let cm = castle_moves_spec(a);
    assert(included(lc, cm)) by {
        let w = white_turn(a);
        let kc = crate::moves::move_code(k, crate::movegen::kingside_to(w));
        let qc = crate::moves::move_code(k, crate::movegen::queenside_to(w));
        let ko = crate::movegen::kingside_open(a);
        let qo = crate::movegen::queenside_open(a);
        let kseq: Seq<u16> = if ko {
            seq![kc]
        } else {
            Seq::empty()
        };
        let qseq: Seq<u16> = if qo {
            seq![qc]
        } else {
            Seq::empty()
        };
        assert(cm == kseq + qseq);
        assert forall|i: int| 0 <= i < lc.len() implies cm.contains(#[trigger] lc[i]) by {
            assert(lc[i] == kc || lc[i] == qc);
            if lc[i] == kc && ko {
                assert(cm[0] == kc);
            } else if lc[i] == qc && qo {
                assert(cm[kseq.len() as int] == qc);
            } else {
                assert(false);
            }
        }
    }
    lemma_safe_moves_included(a, other_moves_spec(a));
    lemma_included_concat(legal_king_moves(a), king_moves_spec(a), lc, cm);
    lemma_included_concat(
        legal_king_moves(a) + lc,
        king_moves_spec(a) + cm,
        safe_moves(a, other_moves_spec(a)),
        other_moves_spec(a),
    );
}

/// Writing a move and reading it back gives the same move.
pub proof fn law_move_text_roundtrip(f: int, t: int, p: Prom)
    requires
        0 <= f < 64,
        0 <= t < 64,
    ensures
        vstd::utf8::is_ascii_chars(move_name(move_code(f, t) | prom_bits(p))),
        parse_move(
            move_name(move_code(f, t) | prom_bits(p)).len() as usize,
            move_name(move_code(f, t) | prom_bits(p)),
        ) == Ok::<u16, Seq<char>>(move_code(f, t) | prom_bits(p)),
{
    let m = move_code(f, t) | prom_bits(p);
    lemma_move_code(f, t, p);
    lemma_move_code(f, t, Prom::NoProm);
    lemma_square_chars(f);
    lemma_square_chars(t);
    let n = move_name(m);
    let l = lower_chars(n);
    assert(n == square_chars(f) + square_chars(t) + prom_chars(p));
    assert forall|i: int| 0 <= i < n.len() implies '\0' <= #[trigger] n[i] <= '\u{7f}' && ascii_lower(n[i]) == n[i] by {
        if i < 2 {
            assert(n[i] == square_chars(f)[i]);
        } else if i < 4 {
            assert(n[i] == square_chars(t)[i - 2]);
        } else {
            assert(n[i] == prom_chars(p)[i - 4]);
        }
    }
    assert(l =~= n);
    assert(square_of_chars(l[0], l[1]) == f);
    assert(square_of_chars(l[2], l[3]) == t);
    if p != Prom::NoProm {
        assert(prom_from_chars(seq![l[4]]) == p) by {
            assert(seq![l[4]] =~= prom_chars(p));
        }
    }
}

/// Storing a halfmove clock or a fullmove number in the information word and reading it back
/// gives it back.
pub proof fn law_counters_roundtrip(n: u64)
    requires
        n <= 0xffff,
    ensures
        ((n << 8u64) & HALFMOVE_FLAG) >> 8u64 == n,
        ((n << 24u64) & FULLMOVE_FLAG) >> 24u64 == n,
{
    assert(((n << 8u64) & 0xff_ff00u64) >> 8u64 == n && ((n << 24u64) & 0xff_ff00_0000u64)
        >> 24u64 == n) by (bit_vector)
        requires
            n <= 0xffff,
    ;
}

/// Storing an en passant square in the information word and reading it back gives it back.
pub proof fn law_enpassant_roundtrip(k: int)
    requires
        0 <= k < 64,
    ensures
        enpassant_of(u64_trailing_zeros(square_bb(k)) as u64) == square_bb(k),
{
    crate::bitboard::lemma_trailing_zeros_single(k);
    let x = k as u64;
    assert(x & 0x7fu64 == x) by (bit_vector)
        requires
            x < 64,
    ;
}


/// Reading a move text in lower case and writing the move back gives the same text.
pub proof fn law_move_text_reads_back(s: Seq<char>)
    requires
        s.len() <= 5,
        vstd::utf8::is_ascii_chars(s),
        lower_chars(s) == s,
        parse_move(s.len() as usize, s) is Ok,
    ensures
        move_name(parse_move(s.len() as usize, s)->Ok_0) == s,
{
    let f = square_of_chars(s[0], s[1]);
    let t = square_of_chars(s[2], s[3]);
    let p = if s.len() == 5 {
        prom_from_chars(seq![s[4]])
    } else {
        Prom::NoProm
    };
    assert(0 <= f < 64 && 0 <= t < 64);
    lemma_move_code(f, t, p);
    assert(f % 8 == file_index(s[0]) && f / 8 == rank_index(s[1]));
    assert(t % 8 == file_index(s[2]) && t / 8 == rank_index(s[3]));
    assert(file_char(file_index(s[0]) as int) == s[0] && rank_char(rank_index(s[1]) as int) == s[1]);
    assert(file_char(file_index(s[2]) as int) == s[2] && rank_char(rank_index(s[3]) as int) == s[3]);
    if s.len() == 5 {
        assert(prom_chars(p) == seq![s[4]]);
        assert(move_name(move_code(f, t) | prom_bits(p)) =~= s);
    } else {
        assert(s.len() == 4);
        assert(prom_chars(p) == Seq::<char>::empty());
        assert(move_name(move_code(f, t) | prom_bits(p)) =~= s);
    }
}

/// A move built from two squares and a promotion gives back those squares and that
/// promotion.
pub proof fn law_move_parts_read_back(f: int, t: int, p: Prom)
    requires
        0 <= f < 64,
        0 <= t < 64,
    ensures
        from_sq(code_of(f as u32, t as u32) | prom_bits(p)) == f,
        to_sq(code_of(f as u32, t as u32) | prom_bits(p)) == t,
        prom_of(code_of(f as u32, t as u32) | prom_bits(p)) == p,
{
    lemma_move_code(f, t, p);
}


/// The code is that of a move between two squares with a promotion (or none).
pub open spec fn is_move_code(m: u16) -> bool {
    m == move_code(from_sq(m), to_sq(m)) | prom_bits(prom_of(m))
}

/// An item of a move listing cut at its commas, without the space that follows a comma.
pub open spec fn listing_item(s: Seq<char>) -> Seq<char> {
    if s.len() > 0 && s[0] == ' ' {
        s.drop_first()
    } else {
        s
    }
}

/// Appending text without the separator extends the last piece.
proof fn lemma_split_append(x: Seq<char>, y: Seq<char>, sep: char)
    requires
        forall|i: int| 0 <= i < y.len() ==> y[i] != sep,
    ensures
        split_on(x + y, sep).len() == split_on(x, sep).len(),
        split_on(x + y, sep) == split_on(x, sep).update(
            split_on(x, sep).len() - 1,
            split_on(x, sep).last() + y,
        ),
    decreases y.len(),
{
    lemma_split_len(x, sep);
    if y.len() == 0 {
        assert(x + y =~= x);
        assert(split_on(x, sep).last() + y =~= split_on(x, sep).last());
        assert(split_on(x, sep).update(split_on(x, sep).len() - 1, split_on(x, sep).last())
            =~= split_on(x, sep));
    } else {
        let y2 = y.drop_last();
        lemma_split_append(x, y2, sep);
        assert((x + y).drop_last() =~= x + y2);
        assert((x + y).last() == y.last());
        let r = split_on(x, sep);
        assert((r.last() + y2).push(y.last()) =~= r.last() + y);
        assert(r.update(r.len() - 1, r.last() + y2).update(r.len() - 1, (r.last() + y2).push(
            y.last(),
        )) =~= r.update(r.len() - 1, r.last() + y));
    }
}

/// The name of a move holds no comma and does not begin with a space.
proof fn lemma_move_name_chars(m: u16)
    ensures
        move_name(m).len() >= 4,
        move_name(m)[0] != ' ',
        forall|i: int| 0 <= i < move_name(m).len() ==> move_name(m)[i] != ',',
{
    lemma_move_fields(m);
    let n = move_name(m);
    let f = from_sq(m);
    let t = to_sq(m);
    assert(n =~= square_chars(f) + square_chars(t) + prom_chars(prom_of(m)));
    assert(file_char(f % 8) != ',' && file_char(f % 8) != ' ');
    assert(rank_char(f / 8) != ',');
    assert(file_char(t % 8) != ',');
    assert(rank_char(t / 8) != ',');
    assert forall|i: int| 0 <= i < n.len() implies n[i] != ',' by {
        if i >= 4 {
            assert(n[i] == prom_chars(prom_of(m))[i - 4]);
        }
    }
}

/// The pieces of a move listing cut at its commas: one per move, holding the move's name
/// (after a space, but for the first), and a last piece after the final comma.
proof fn lemma_listing_pieces(cs: Seq<u16>)
    ensures
        split_on(moves_text(cs), ',').len() == cs.len() + 1,
        split_on(moves_text(cs), ',').last() == (if cs.len() == 0 {
            Seq::<char>::empty()
        } else {
            seq![' ']
        }),
        forall|i: int|
            0 <= i < cs.len() ==> listing_item(#[trigger] split_on(moves_text(cs), ',')[i])
                == move_name(cs[i]),
    decreases cs.len(),
{
    if cs.len() == 0 {
        assert(moves_text(cs) =~= Seq::<char>::empty());
    } else {
        let front = cs.drop_last();
        let m = cs.last();
        lemma_listing_pieces(front);
        let t = moves_text(front);
        let n = move_name(m);
        lemma_move_name_chars(m);
        let sp = split_on(t, ',');
        lemma_split_append(t, n, ',');
        assert(moves_text(cs) =~= (t + n) + seq![','] + seq![' ']);
        crate::roundtrip::lemma_split_join(t + n, ',', seq![' ']);
        crate::roundtrip::lemma_split_single(seq![' '], ',');
        let sp2 = split_on(moves_text(cs), ',');
        let mid = sp.update(sp.len() - 1, sp.last() + n);
        assert(sp2 == mid + seq![seq![' ']]);
        assert forall|i: int| 0 <= i < cs.len() implies listing_item(#[trigger] sp2[i])
            == move_name(cs[i]) by {
            assert(sp2[i] == mid[i]);
            if i < front.len() {
                assert(mid[i] == sp[i]);
                assert(cs[i] == front[i]);
            } else {
                assert(mid[i] == sp.last() + n);
                if front.len() == 0 {
                    assert(sp.last() + n =~= n);
                } else {
                    assert((seq![' '] + n).drop_first() =~= n);
                }
            }
        }
        assert(sp2.last() == seq![' ']);
    }
}

/// Each move of a listing can be read back from the listing: cut at its commas, the `i`-th
/// piece (without its leading space) reads as the `i`-th move, promotion included, and there
/// is one piece more than there are moves.
pub proof fn law_moves_text_reads_back(cs: Seq<u16>)
    requires
        forall|i: int| 0 <= i < cs.len() ==> is_move_code(#[trigger] cs[i]),
    ensures
        split_on(moves_text(cs), ',').len() == cs.len() + 1,
        forall|i: int|
            0 <= i < cs.len() ==> parse_move(
                listing_item(#[trigger] split_on(moves_text(cs), ',')[i]).len() as usize,
                listing_item(split_on(moves_text(cs), ',')[i]),
            ) == Ok::<u16, Seq<char>>(cs[i]),
{
    lemma_listing_pieces(cs);
    assert forall|i: int| 0 <= i < cs.len() implies parse_move(
        listing_item(#[trigger] split_on(moves_text(cs), ',')[i]).len() as usize,
        listing_item(split_on(moves_text(cs), ',')[i]),
    ) == Ok::<u16, Seq<char>>(cs[i]) by {
        let m = cs[i];
        lemma_move_fields(m);
        law_move_text_roundtrip(from_sq(m), to_sq(m), prom_of(m));
    }
}



/// All the moves of `ms` have move codes.
pub open spec fn all_move_codes(ms: Seq<u16>) -> bool {
    forall|i: int| 0 <= i < ms.len() ==> is_move_code(#[trigger] ms[i])
}

/// A code built from two squares and a promotion is a move code.
proof fn lemma_built_code(f: int, t: int, p: Prom)
    requires
        0 <= f < 64,
        0 <= t < 64,
    ensures
        is_move_code(move_code(f, t) | prom_bits(p)),
        is_move_code(move_code(f, t)),
{
    lemma_move_code(f, t, p);
    lemma_move_code(f, t, Prom::NoProm);
}

proof fn lemma_concat_codes(x: Seq<u16>, y: Seq<u16>)
    requires
        all_move_codes(x),
        all_move_codes(y),
    ensures
        all_move_codes(x + y),
{
    assert forall|i: int| 0 <= i < (x + y).len() implies is_move_code(#[trigger] (x + y)[i]) by {
        if i < x.len() {
            assert((x + y)[i] == x[i]);
        } else {
            assert((x + y)[i] == y[i - x.len()]);
        }
    }
}

proof fn lemma_single_codes(from: int, ts: Seq<int>)
    requires
        0 <= from < 64,
        forall|k: int| 0 <= k < ts.len() ==> 0 <= #[trigger] ts[k] < 64,
    ensures
        all_move_codes(single_moves(from, ts)),
    decreases ts.len(),
{
    if ts.len() > 0 {
        lemma_single_codes(from, ts.drop_last());
        lemma_built_code(from, ts.last(), Prom::NoProm);
        let r = single_moves(from, ts.drop_last());
        assert forall|i: int| 0 <= i < single_moves(from, ts).len() implies is_move_code(
            #[trigger] single_moves(from, ts)[i],
        ) by {
            if i < r.len() {
                assert(single_moves(from, ts)[i] == r[i]);
            }
        }
    }
}

proof fn lemma_promo_codes(from: int, ts: Seq<int>)
    requires
        0 <= from < 64,
        forall|k: int| 0 <= k < ts.len() ==> 0 <= #[trigger] ts[k] < 64,
    ensures
        all_move_codes(crate::movegen::promo_moves(from, ts)),
    decreases ts.len(),
{
    if ts.len() > 0 {
        lemma_promo_codes(from, ts.drop_last());
        let t = ts.last();
        lemma_built_code(from, t, Prom::Queen);
        lemma_built_code(from, t, Prom::Bishop);
        lemma_built_code(from, t, Prom::Knight);
        lemma_built_code(from, t, Prom::Rook);
        let c = crate::movegen::promo_codes(from, t);
        assert(all_move_codes(c));
        lemma_concat_codes(crate::movegen::promo_moves(from, ts.drop_last()), c);
    }
}

proof fn lemma_piece_codes(kind: int, ps: Seq<int>, team: u64, occ: u64)
    requires
        forall|k: int| 0 <= k < ps.len() ==> 0 <= #[trigger] ps[k] < 64,
    ensures
        all_move_codes(crate::movegen::piece_moves(kind, ps, team, occ)),
    decreases ps.len(),
{
    if ps.len() > 0 {
        let front = ps.drop_last();
        lemma_piece_codes(kind, front, team, occ);
        let targets = crate::movegen::piece_attack_bb(kind, ps.last(), occ) & !team;
        crate::bitboard::lemma_bits_from_bounds(targets, 0);
        lemma_single_codes(ps.last(), crate::bitboard::squares(targets));
        lemma_concat_codes(
            crate::movegen::piece_moves(kind, front, team, occ),
            single_moves(ps.last(), crate::bitboard::squares(targets)),
        );
    }
}

proof fn lemma_pawn_codes(white: bool, ps: Seq<int>, opps: u64, ep: u64, occ: u64)
    requires
        forall|k: int| 0 <= k < ps.len() ==> 0 <= #[trigger] ps[k] < 64,
    ensures
        all_move_codes(crate::movegen::pawn_moves(white, ps, opps, ep, occ)),
    decreases ps.len(),
{
    if ps.len() > 0 {
        let front = ps.drop_last();
        let p = ps.last();
        lemma_pawn_codes(white, front, opps, ep, occ);
        let targets = crate::movegen::pawn_targets(white, p, opps, ep, occ);
        let ts = crate::bitboard::squares(targets);
        crate::bitboard::lemma_bits_from_bounds(targets, 0);
        lemma_single_codes(p, ts);
        lemma_promo_codes(p, ts);
        lemma_concat_codes(crate::movegen::pawn_moves(white, front, opps, ep, occ), single_moves(p, ts));
        lemma_concat_codes(
            crate::movegen::pawn_moves(white, front, opps, ep, occ),
            crate::movegen::promo_moves(p, ts),
        );
    }
}

/// Every pseudo-legal and every legal move of a position with a king to move has a move code:
/// its from square, to square and promotion make it up.
pub proof fn law_generated_moves_are_move_codes(a: Seq<u64>)
    requires
        a.len() == 15,
        crate::fen::has_own_king(a),
    ensures
        all_move_codes(pseudo_moves(a)),
        all_move_codes(legal_moves(a)),
{
    let w = white_turn(a);
    let k = crate::fen::own_king_sq(a);
    if w {
        axiom_u64_trailing_zeros(a[5]);
    } else {
        axiom_u64_trailing_zeros(a[11]);
    }
    let targets = crate::attacks::king_bb(k) & !crate::movegen::team_of(a);
    crate::bitboard::lemma_bits_from_bounds(targets, 0);
    lemma_single_codes(k, crate::bitboard::squares(targets));
    let kt = crate::movegen::kingside_to(w);
    let qt = crate::movegen::queenside_to(w);
    lemma_built_code(k, kt, Prom::NoProm);
    lemma_built_code(k, qt, Prom::NoProm);
    assert(all_move_codes(castle_moves_spec(a)));
    let b = crate::movegen::side_base(w);
    let team = crate::movegen::team_of(a);
    let occ = crate::board::occupied_of(a);
    let ep = enpassant_of(a[INFO as int]);
    crate::bitboard::lemma_bits_from_bounds(a[b], 0);
    crate::bitboard::lemma_bits_from_bounds(a[b + 1], 0);
    crate::bitboard::lemma_bits_from_bounds(a[b + 2], 0);
    crate::bitboard::lemma_bits_from_bounds(a[b + 3], 0);
    crate::bitboard::lemma_bits_from_bounds(a[b + 4], 0);
    let pw = crate::movegen::pawn_moves(w, crate::bitboard::squares(a[b]), crate::movegen::opps_of(a), ep, occ);
    let g1 = crate::movegen::piece_moves(1, crate::bitboard::squares(a[b + 1]), team, occ);
    let g2 = crate::movegen::piece_moves(2, crate::bitboard::squares(a[b + 2]), team, occ);
    let g3 = crate::movegen::piece_moves(3, crate::bitboard::squares(a[b + 3]), team, occ);
    let g4 = crate::movegen::piece_moves(4, crate::bitboard::squares(a[b + 4]), team, occ);
    lemma_pawn_codes(w, crate::bitboard::squares(a[b]), crate::movegen::opps_of(a), ep, occ);
    lemma_piece_codes(1, crate::bitboard::squares(a[b + 1]), team, occ);
    lemma_piece_codes(2, crate::bitboard::squares(a[b + 2]), team, occ);
    lemma_piece_codes(3, crate::bitboard::squares(a[b + 3]), team, occ);
    lemma_piece_codes(4, crate::bitboard::squares(a[b + 4]), team, occ);
    lemma_concat_codes(pw, g1);
    lemma_concat_codes(pw + g1, g2);
    lemma_concat_codes(pw + g1 + g2, g3);
    lemma_concat_codes(pw + g1 + g2 + g3, g4);
    assert(other_moves_spec(a) == pw + g1 + g2 + g3 + g4);
    lemma_concat_codes(king_moves_spec(a), castle_moves_spec(a));
    lemma_concat_codes(king_moves_spec(a) + castle_moves_spec(a), other_moves_spec(a));
    assert(pseudo_moves(a) == king_moves_spec(a) + castle_moves_spec(a) + other_moves_spec(a));
    law_legal_moves_are_pseudo_legal(a);
    assert forall|i: int| 0 <= i < legal_moves(a).len() implies is_move_code(
        #[trigger] legal_moves(a)[i],
    ) by {
        assert(pseudo_moves(a).contains(legal_moves(a)[i]));
        let j = choose|j: int| 0 <= j < pseudo_moves(a).len() && pseudo_moves(a)[j] == legal_moves(a)[i];
        assert(is_move_code(pseudo_moves(a)[j]));
    }
}

} // verus!
