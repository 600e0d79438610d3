use vstd::prelude::*;
use vstd::std_specs::bits::u64_trailing_zeros;
use crate::bitboard::{
    bit, group_bits, bits_from, squares, lemma_walk_step, lemma_walk_end, lemma_bits_from_len,
};
use crate::attacks::{
    rank_of, knight_bb, king_bb, white_pawn_bb, black_pawn_bb, rook_bb, bishop_bb, queen_bb,
    white_steps_bb, black_steps_bb, knight_attacks, king_attacks, white_pawn_attacks,
    black_pawn_attacks, get_rook_moves, get_bishop_moves, get_queen_moves, get_white_pawn_steps,
    get_black_pawn_steps, white_pawn_promotion, black_pawn_promotion,
};
use crate::moves::{Move, Moves, Prom, move_code, prom_bits, lemma_move_code};
use crate::board::{
    INFO, KING_W, KING_B, white_of, black_of, occupied_of, get_white_pieces, get_black_pieces,
    WHITE_KINGSIDE_RIGHTS, WHITE_QUEENSIDE_RIGHTS, BLACK_KINGSIDE_RIGHTS, BLACK_QUEENSIDE_RIGHTS,
    WHITE_KINGSIDE_SQUARES, WHITE_QUEENSIDE_SQUARES, BLACK_KINGSIDE_SQUARES,
    BLACK_QUEENSIDE_SQUARES, WHITE_KINGSIDE_MOVE_TO_INDEX, WHITE_QUEENSIDE_MOVE_TO_INDEX,
    BLACK_KINGSIDE_MOVE_TO_INDEX, BLACK_QUEENSIDE_MOVE_TO_INDEX, WHITE_KINGSIDE_ATTACK_1,
    WHITE_KINGSIDE_ATTACK_2, WHITE_QUEENSIDE_ATTACK_1, WHITE_QUEENSIDE_ATTACK_2,
    BLACK_KINGSIDE_ATTACK_1, BLACK_KINGSIDE_ATTACK_2, BLACK_QUEENSIDE_ATTACK_1,
    BLACK_QUEENSIDE_ATTACK_2,
};
use crate::fen::{
    Fen, white_turn, own_king_sq, has_own_king, attacked_by_black, attacked_by_white,
    make_move_spec,
};
use crate::parsing::{enpassant_of, info_to_enpassant};

verus! {

broadcast use group_bits;

/// Moves from `from` to each square of `ts`, in order.
pub open spec fn single_moves(from: int, ts: Seq<int>) -> Seq<u16>
    decreases ts.len(),
{
    if ts.len() == 0 {
        Seq::empty()
    } else {
        single_moves(from, ts.drop_last()).push(move_code(from, ts.last()))
    }
}

/// The four promotions of a pawn moving from `from` to `to`: queen, bishop, knight, rook.
pub open spec fn promo_codes(from: int, to: int) -> Seq<u16> {
    seq![
        move_code(from, to) | prom_bits(Prom::Queen),
        move_code(from, to) | prom_bits(Prom::Bishop),
        move_code(from, to) | prom_bits(Prom::Knight),
        move_code(from, to) | prom_bits(Prom::Rook),
    ]
}

/// The promotions from `from` to each square of `ts`, in order.
pub open spec fn promo_moves(from: int, ts: Seq<int>) -> Seq<u16>
    decreases ts.len(),
{
    if ts.len() == 0 {
        Seq::empty()
    } else {
        promo_moves(from, ts.drop_last()) + promo_codes(from, ts.last())
    }
}

/// The attacked squares of a knight (kind 1), bishop (2), rook (3) or queen (4) on `p`.
pub open spec fn piece_attack_bb(kind: int, p: int, occupied: u64) -> u64 {
    if kind == 1 {
        knight_bb(p)
    } else if kind == 2 {
        bishop_bb(p, occupied)
    } else if kind == 3 {
        rook_bb(p, occupied)
    } else {
        queen_bb(p, occupied)
    }
}

/// The moves of the pieces of one kind standing on the squares `ps`, in order.
pub open spec fn piece_moves(kind: int, ps: Seq<int>, team: u64, occupied: u64) -> Seq<u16>
    decreases ps.len(),
{
    if ps.len() == 0 {
        Seq::empty()
    } else {
        piece_moves(kind, ps.drop_last(), team, occupied) + single_moves(
            ps.last(),
            squares(piece_attack_bb(kind, ps.last(), occupied) & !team),
        )
    }
}

/// The squares a pawn on `p` moves to: captures of opponents or of the en passant square,
/// and steps.
pub open spec fn pawn_targets(white: bool, p: int, opps: u64, ep: u64, occupied: u64) -> u64 {
    if white {
        (white_pawn_bb(p) & (opps | ep)) | white_steps_bb(p, occupied)
    } else {
        (black_pawn_bb(p) & (opps | ep)) | black_steps_bb(p, occupied)
    }
}

/// A pawn on `p` promotes with its next move.
pub open spec fn pawn_promotes(white: bool, p: int) -> bool {
    if white {
        rank_of(p) == 6
    } else {
        rank_of(p) == 1
    }
}

/// The moves of pawns standing on the squares `ps`, in order.
pub open spec fn pawn_moves(white: bool, ps: Seq<int>, opps: u64, ep: u64, occupied: u64) -> Seq<
    u16,
>
    decreases ps.len(),
{
    if ps.len() == 0 {
        Seq::empty()
    } else {
        let p = ps.last();
        let ts = squares(pawn_targets(white, p, opps, ep, occupied));
        pawn_moves(white, ps.drop_last(), opps, ep, occupied) + if pawn_promotes(white, p) {
            promo_moves(p, ts)
        } else {
            single_moves(p, ts)
        }
    }
}

/// One move per target square.
pub proof fn lemma_single_moves_len(from: int, ts: Seq<int>)
    ensures
        single_moves(from, ts).len() == ts.len(),
    decreases ts.len(),
{
    if ts.len() > 0 {
        lemma_single_moves_len(from, ts.drop_last());
    }
}

/// Four promotion moves per target square.
pub proof fn lemma_promo_moves_len(from: int, ts: Seq<int>)
    ensures
        promo_moves(from, ts).len() == 4 * ts.len(),
    decreases ts.len(),
{
    if ts.len() > 0 {
        lemma_promo_moves_len(from, ts.drop_last());
    }
}

/// The bound on list sizes under which the generators may append.
pub open spec fn size_ok(n: int) -> bool {
    n <= 0x100_0000
}

/// Appends the moves from `from` to each square of `targets`, in increasing order.
pub fn push_single_moves(moves: &mut Moves, from: usize, targets: u64)
    requires
        old(moves).wf(),
        old(moves).tight(),
        from < 64,
        old(moves).size <= 0x200_0000,
    ensures
        final(moves).wf(),
        final(moves).tight(),
        final(moves).codes() == old(moves).codes() + single_moves(from as int, squares(targets)),
        final(moves).size <= old(moves).size + 64,
{
    let mut rest = targets;
    let ghost mut lo: int = 0;
    let ghost mut done: Seq<int> = Seq::empty();
    proof {
        lemma_bits_from_len(targets, 0);
    }
    while rest != 0
        invariant
            moves.wf(),
            moves.tight(),
            from < 64,
            old(moves).size <= 0x200_0000,
            0 <= lo <= 64,
            forall|j: int| bit(rest, j) <==> bit(targets, j) && lo <= j,
            squares(targets) == done + bits_from(targets, lo),
            squares(targets).len() <= 64,
            moves.codes() == old(moves).codes() + single_moves(from as int, done),
            moves.size == old(moves).size + done.len(),
        decreases 64 - lo,
    {
        proof {
            lemma_walk_step(targets, rest, lo);
            lemma_single_moves_len(from as int, done);
        }
        let index = rest.trailing_zeros() as usize;
        let m = Move::from_squares(from, index, Prom::NoProm);
        proof {
            lemma_move_code(from as int, index as int, Prom::NoProm);
        }
        moves.add(m);
        proof {
            let nd = done.push(index as int);
            assert(nd.drop_last() =~= done);
            assert(nd + bits_from(targets, index + 1) =~= done + bits_from(targets, lo));
            done = nd;
            lo = index + 1;
        }
        rest = rest & (rest - 1);
    }
    proof {
        lemma_walk_end(targets, lo);
        assert(done =~= squares(targets));
        lemma_single_moves_len(from as int, done);
    }
}

/// Appends the four promotions from `from` to each square of `targets`, in increasing order.
pub fn push_promo_moves(moves: &mut Moves, from: usize, targets: u64)
    requires
        old(moves).wf(),
        old(moves).tight(),
        from < 64,
        old(moves).size <= 0x200_0000,
    ensures
        final(moves).wf(),
        final(moves).tight(),
        final(moves).codes() == old(moves).codes() + promo_moves(from as int, squares(targets)),
        final(moves).size <= old(moves).size + 256,
{
    let mut rest = targets;
    let ghost mut lo: int = 0;
    let ghost mut done: Seq<int> = Seq::empty();
    proof {
        lemma_bits_from_len(targets, 0);
    }
    while rest != 0
        invariant
            moves.wf(),
            moves.tight(),
            from < 64,
            old(moves).size <= 0x200_0000,
            0 <= lo <= 64,
            forall|j: int| bit(rest, j) <==> bit(targets, j) && lo <= j,
            squares(targets) == done + bits_from(targets, lo),
            squares(targets).len() <= 64,
            moves.codes() == old(moves).codes() + promo_moves(from as int, done),
            moves.size == old(moves).size + 4 * done.len(),
        decreases 64 - lo,
    {
        proof {
            lemma_walk_step(targets, rest, lo);
            lemma_promo_moves_len(from as int, done);
        }
        let index = rest.trailing_zeros() as usize;
        let ghost before = moves.codes();
        moves.add(Move::from_squares(from, index, Prom::Queen));
        moves.add(Move::from_squares(from, index, Prom::Bishop));
        moves.add(Move::from_squares(from, index, Prom::Knight));
        moves.add(Move::from_squares(from, index, Prom::Rook));
        proof {
            let nd = done.push(index as int);
            assert(nd.drop_last() =~= done);
            assert(moves.codes() =~= before + promo_codes(from as int, index as int));
            assert(nd + bits_from(targets, index + 1) =~= done + bits_from(targets, lo));
            done = nd;
            lo = index + 1;
        }
        rest = rest & (rest - 1);
    }
    proof {
        lemma_walk_end(targets, lo);
        assert(done =~= squares(targets));
        lemma_promo_moves_len(from as int, done);
    }
}

fn piece_attacks(kind: usize, p: usize, occupied: u64) -> (res: u64)
    requires
        1 <= kind <= 4,
        p < 64,
    ensures
        res == piece_attack_bb(kind as int, p as int, occupied),
{
    if kind == 1 {
        knight_attacks(p)
    } else if kind == 2 {
        get_bishop_moves(p, occupied)
    } else if kind == 3 {
        get_rook_moves(p, occupied)
    } else {
        get_queen_moves(p, occupied)
    }
}

/// Appends the moves of the knights (kind 1), bishops (2), rooks (3) or queens (4) standing on
/// `pieces`: for each piece in increasing order, its attacked squares not held by `team`.
pub fn push_piece_moves(moves: &mut Moves, kind: usize, pieces: u64, team: u64, occupied: u64)
    requires
        old(moves).wf(),
        old(moves).tight(),
        1 <= kind <= 4,
        size_ok(old(moves).size as int),
    ensures
        final(moves).wf(),
        final(moves).tight(),
        final(moves).codes() == old(moves).codes() + piece_moves(
            kind as int,
            squares(pieces),
            team,
            occupied,
        ),
        final(moves).size <= old(moves).size + 4096,
{
    let mut rest = pieces;
    let ghost mut lo: int = 0;
    let ghost mut done: Seq<int> = Seq::empty();
    proof {
        lemma_bits_from_len(pieces, 0);
    }
    while rest != 0
        invariant
            moves.wf(),
            moves.tight(),
            1 <= kind <= 4,
            size_ok(old(moves).size as int),
            0 <= lo <= 64,
            forall|j: int| bit(rest, j) <==> bit(pieces, j) && lo <= j,
            squares(pieces) == done + bits_from(pieces, lo),
            squares(pieces).len() <= 64,
            moves.codes() == old(moves).codes() + piece_moves(kind as int, done, team, occupied),
            moves.size <= old(moves).size + 64 * done.len(),
        decreases 64 - lo,
    {
        proof {
            lemma_walk_step(pieces, rest, lo);
        }
        let index = rest.trailing_zeros() as usize;
        let attacks = piece_attacks(kind, index, occupied);
        push_single_moves(moves, index, attacks & !team);
        proof {
            let nd = done.push(index as int);
            assert(nd.drop_last() =~= done);
            assert(nd + bits_from(pieces, index + 1) =~= done + bits_from(pieces, lo));
            done = nd;
            lo = index + 1;
        }
        rest = rest & (rest - 1);
    }
    proof {
        lemma_walk_end(pieces, lo);
        assert(done =~= squares(pieces));
    }
}

/// Appends the moves of the pawns standing on `pawns`: for each pawn in increasing order, its
/// captures and steps, as four promotions each when it promotes.
pub fn push_pawn_moves(
    moves: &mut Moves,
    white: bool,
    pawns: u64,
    opps: u64,
    ep: u64,
    occupied: u64,
)
    requires
        old(moves).wf(),
        old(moves).tight(),
        size_ok(old(moves).size as int),
    ensures
        final(moves).wf(),
        final(moves).tight(),
        final(moves).codes() == old(moves).codes() + pawn_moves(
            white,
            squares(pawns),
            opps,
            ep,
            occupied,
        ),
        final(moves).size <= old(moves).size + 16384,
{
    let mut rest = pawns;
    let ghost mut lo: int = 0;
    let ghost mut done: Seq<int> = Seq::empty();
    proof {
        lemma_bits_from_len(pawns, 0);
    }
    while rest != 0
        invariant
            moves.wf(),
            moves.tight(),
            size_ok(old(moves).size as int),
            0 <= lo <= 64,
            forall|j: int| bit(rest, j) <==> bit(pawns, j) && lo <= j,
            squares(pawns) == done + bits_from(pawns, lo),
            squares(pawns).len() <= 64,
            moves.codes() == old(moves).codes() + pawn_moves(white, done, opps, ep, occupied),
            moves.size <= old(moves).size + 256 * done.len(),
        decreases 64 - lo,
    {
        proof {
            lemma_walk_step(pawns, rest, lo);
        }
        let index = rest.trailing_zeros() as usize;
        let targets = if white {
            (white_pawn_attacks(index) & (opps | ep)) | get_white_pawn_steps(index, occupied)
        } else {
            (black_pawn_attacks(index) & (opps | ep)) | get_black_pawn_steps(index, occupied)
        };
        let promotes = if white {
            white_pawn_promotion(index)
        } else {
            black_pawn_promotion(index)
        };
        if promotes {
            push_promo_moves(moves, index, targets);
        } else {
            push_single_moves(moves, index, targets);
        }
        proof {
            let nd = done.push(index as int);
            assert(nd.drop_last() =~= done);
            assert(nd + bits_from(pawns, index + 1) =~= done + bits_from(pawns, lo));
            done = nd;
            lo = index + 1;
        }
        rest = rest & (rest - 1);
    }
    proof {
        lemma_walk_end(pawns, lo);
        assert(done =~= squares(pawns));
    }
}

/// The index of the first bitboard of a side's pieces: 0 for white, 6 for black.
pub open spec fn side_base(white: bool) -> int {
    if white {
        0
    } else {
        6
    }
}

/// The pieces of the side to move.
pub open spec fn team_of(a: Seq<u64>) -> u64 {
    if white_turn(a) {
        white_of(a)
    } else {
        black_of(a)
    }
}

/// The pieces of the side not to move.
pub open spec fn opps_of(a: Seq<u64>) -> u64 {
    if white_turn(a) {
        black_of(a)
    } else {
        white_of(a)
    }
}

/// Square `i` is attacked by the side not to move, given the occupied squares.
pub open spec fn attacked_by_opponent(a: Seq<u64>, white: bool, i: int, occupied: u64) -> bool {
    if white {
        attacked_by_black(a, i, occupied)
    } else {
        attacked_by_white(a, i, occupied)
    }
}

pub open spec fn kingside_rights(white: bool) -> u64 {
    if white {
        WHITE_KINGSIDE_RIGHTS
    } else {
        BLACK_KINGSIDE_RIGHTS
    }
}

pub open spec fn queenside_rights(white: bool) -> u64 {
    if white {
        WHITE_QUEENSIDE_RIGHTS
    } else {
        BLACK_QUEENSIDE_RIGHTS
    }
}

pub open spec fn kingside_squares(white: bool) -> u64 {
    if white {
        WHITE_KINGSIDE_SQUARES
    } else {
        BLACK_KINGSIDE_SQUARES
    }
}

pub open spec fn queenside_squares(white: bool) -> u64 {
    if white {
        WHITE_QUEENSIDE_SQUARES
    } else {
        BLACK_QUEENSIDE_SQUARES
    }
}

pub open spec fn kingside_to(white: bool) -> int {
    if white {
        WHITE_KINGSIDE_MOVE_TO_INDEX as int
    } else {
        BLACK_KINGSIDE_MOVE_TO_INDEX as int
    }
}

pub open spec fn queenside_to(white: bool) -> int {
    if white {
        WHITE_QUEENSIDE_MOVE_TO_INDEX as int
    } else {
        BLACK_QUEENSIDE_MOVE_TO_INDEX as int
    }
}

/// The two squares the king crosses when castling kingside.
pub open spec fn kingside_path(white: bool) -> (int, int) {
    if white {
        (WHITE_KINGSIDE_ATTACK_1 as int, WHITE_KINGSIDE_ATTACK_2 as int)
    } else {
        (BLACK_KINGSIDE_ATTACK_1 as int, BLACK_KINGSIDE_ATTACK_2 as int)
    }
}

/// The two squares the king crosses when castling queenside.
pub open spec fn queenside_path(white: bool) -> (int, int) {
    if white {
        (WHITE_QUEENSIDE_ATTACK_1 as int, WHITE_QUEENSIDE_ATTACK_2 as int)
    } else {
        (BLACK_QUEENSIDE_ATTACK_1 as int, BLACK_QUEENSIDE_ATTACK_2 as int)
    }
}

/// The king steps of the side to move onto squares its own pieces do not hold.
pub open spec fn king_moves_spec(a: Seq<u64>) -> Seq<u16> {
    let k = own_king_sq(a);
    single_moves(k, squares(king_bb(k) & !team_of(a)))
}

/// Castling is allowed by the rights and the squares in between are empty (kingside).
pub open spec fn kingside_open(a: Seq<u64>) -> bool {
    let w = white_turn(a);
    a[INFO as int] & kingside_rights(w) != 0 && occupied_of(a) & kingside_squares(w) == 0
}

/// Castling is allowed by the rights and the squares in between are empty (queenside).
pub open spec fn queenside_open(a: Seq<u64>) -> bool {
    let w = white_turn(a);
    a[INFO as int] & queenside_rights(w) != 0 && occupied_of(a) & queenside_squares(w) == 0
}

/// The castling moves whose rights hold and whose squares in between are empty.
pub open spec fn castle_moves_spec(a: Seq<u64>) -> Seq<u16> {
    let w = white_turn(a);
    let k = own_king_sq(a);
    (if kingside_open(a) {
        seq![move_code(k, kingside_to(w))]
    } else {
        Seq::empty()
    }) + (if queenside_open(a) {
        seq![move_code(k, queenside_to(w))]
    } else {
        Seq::empty()
    })
}

/// The moves of the pawns, knights, bishops, rooks and queens of the side to move.
pub open spec fn other_moves_spec(a: Seq<u64>) -> Seq<u16> {
    let w = white_turn(a);
    let b = side_base(w);
    let team = team_of(a);
    let occ = occupied_of(a);
    pawn_moves(w, squares(a[b]), opps_of(a), enpassant_of(a[INFO as int]), occ) + piece_moves(
        1,
        squares(a[b + 1]),
        team,
        occ,
    ) + piece_moves(2, squares(a[b + 2]), team, occ) + piece_moves(3, squares(a[b + 3]), team, occ)
        + piece_moves(4, squares(a[b + 4]), team, occ)
}

/// The pseudo-legal moves: king steps, castling (rights and empty squares only), then the
/// other pieces, pawns first.
pub open spec fn pseudo_moves(a: Seq<u64>) -> Seq<u16> {
    king_moves_spec(a) + castle_moves_spec(a) + other_moves_spec(a)
}

/// The king steps from `k` to the squares `ts` that the opponent does not attack once the king
/// has left `k`.
pub open spec fn safe_king_steps(a: Seq<u64>, k: int, ts: Seq<int>, occupied: u64) -> Seq<u16>
    decreases ts.len(),
{
    if ts.len() == 0 {
        Seq::empty()
    } else {
        let rest = safe_king_steps(a, k, ts.drop_last(), occupied);
        if attacked_by_opponent(a, white_turn(a), ts.last(), occupied) {
            rest
        } else {
            rest.push(move_code(k, ts.last()))
        }
    }
}

/// The legal king steps.
pub open spec fn legal_king_moves(a: Seq<u64>) -> Seq<u16> {
    let k = own_king_sq(a);
    let king = if white_turn(a) {
        a[KING_W as int]
    } else {
        a[KING_B as int]
    };
    safe_king_steps(a, k, squares(king_bb(k) & !team_of(a)), occupied_of(a) & !king)
}

/// The legal castling moves: the king is not in check and does not cross attacked squares.
pub open spec fn legal_castle_moves(a: Seq<u64>) -> Seq<u16> {
    let w = white_turn(a);
    let k = own_king_sq(a);
    let occ = occupied_of(a);
    let ks = kingside_path(w);
    let qs = queenside_path(w);
    let not_in_check = !attacked_by_opponent(a, w, k, occ);
    (if kingside_open(a) && not_in_check && !attacked_by_opponent(a, w, ks.0, occ)
        && !attacked_by_opponent(a, w, ks.1, occ) {
        seq![move_code(k, kingside_to(w))]
    } else {
        Seq::empty()
    }) + (if queenside_open(a) && not_in_check && !attacked_by_opponent(a, w, qs.0, occ)
        && !attacked_by_opponent(a, w, qs.1, occ) {
        seq![move_code(k, queenside_to(w))]
    } else {
        Seq::empty()
    })
}

/// After the move with code `m`, the mover still has a king and it is not attacked.
pub open spec fn leaves_king_safe(a: Seq<u64>, m: u16) -> bool {
    let w = white_turn(a);
    let b = make_move_spec(a, m);
    let king = if w {
        b[KING_W as int]
    } else {
        b[KING_B as int]
    };
    king != 0 && !attacked_by_opponent(b, w, u64_trailing_zeros(king) as int, occupied_of(b))
}

/// The moves of `ms` that leave the mover's king safe, in order.
pub open spec fn safe_moves(a: Seq<u64>, ms: Seq<u16>) -> Seq<u16>
    decreases ms.len(),
{
    if ms.len() == 0 {
        Seq::empty()
    } else {
        let rest = safe_moves(a, ms.drop_last());
        if leaves_king_safe(a, ms.last()) {
            rest.push(ms.last())
        } else {
            rest
        }
    }
}

/// The legal moves: safe king steps, castling that neither starts in nor crosses check, and
/// the other moves that leave the king safe. Every attacker counts, the opponent's king
/// included, whether or not the position could arise in play.
#[verifier::opaque]
pub open spec fn legal_moves(a: Seq<u64>) -> Seq<u16> {
    legal_king_moves(a) + legal_castle_moves(a) + safe_moves(a, other_moves_spec(a))
}

impl Fen {
    /// The squares the side to move's king can step to, its own pieces excluded.
    fn king_targets(&self) -> (res: (usize, u64))
        requires
            has_own_king(self@),
        ensures
            res.0 == own_king_sq(self@),
            res.0 < 64,
            res.1 == king_bb(own_king_sq(self@)) & !team_of(self@),
    {
        let white = self.white_to_move();
        let king = if white {
            self.array[KING_W]
        } else {
            self.array[KING_B]
        };
        let team = if white {
            get_white_pieces(&self.array)
        } else {
            get_black_pieces(&self.array)
        };
        let king_index = king.trailing_zeros() as usize;
        (king_index, king_attacks(king_index) & !team)
    }

    /// Appends the moves of the pawns, knights, bishops, rooks and queens.
    fn push_other_moves(&self, moves: &mut Moves)
        requires
            old(moves).wf(),
            old(moves).tight(),
            old(moves).size <= 0x10_0000,
        ensures
            final(moves).wf(),
            final(moves).tight(),
            final(moves).codes() == old(moves).codes() + other_moves_spec(self@),
            final(moves).size <= old(moves).size + 0x8000,
    {
        let white = self.white_to_move();
        let base: usize = if white {
            0
        } else {
            6
        };
        let team = if white {
            get_white_pieces(&self.array)
        } else {
            get_black_pieces(&self.array)
        };
        let opps = if white {
            get_black_pieces(&self.array)
        } else {
            get_white_pieces(&self.array)
        };
        let occupied = crate::board::get_occupancy(&self.array);
        let ep = info_to_enpassant(self.array[INFO]);
        let ghost c0 = moves.codes();
        push_pawn_moves(moves, white, self.array[base], opps, ep, occupied);
        push_piece_moves(moves, 1, self.array[base + 1], team, occupied);
        push_piece_moves(moves, 2, self.array[base + 2], team, occupied);
        push_piece_moves(moves, 3, self.array[base + 3], team, occupied);
        push_piece_moves(moves, 4, self.array[base + 4], team, occupied);
        assert(moves.codes() =~= c0 + other_moves_spec(self@));
    }

    /// The pseudo-legal moves: king steps, castling with rights and empty squares, then the
    /// moves of the pawns, knights, bishops, rooks and queens.
    pub fn get_pseudo_legal_moves(&self) -> (res: Moves)
        requires
            has_own_king(self@),
        ensures
            res.wf(),
            res.tight(),
            res.codes() == pseudo_moves(self@),
    {
        let mut moves = Moves::empty();
        let white = self.white_to_move();
        let (king_index, king_moves) = self.king_targets();
        push_single_moves(&mut moves, king_index, king_moves);
        let ghost c1 = moves.codes();

        let info = self.array[INFO];
        let occupied = crate::board::get_occupancy(&self.array);
        let (kr, qr, ksq, qsq, kto, qto) = if white {
            (
                WHITE_KINGSIDE_RIGHTS,
                WHITE_QUEENSIDE_RIGHTS,
                WHITE_KINGSIDE_SQUARES,
                WHITE_QUEENSIDE_SQUARES,
                WHITE_KINGSIDE_MOVE_TO_INDEX,
                WHITE_QUEENSIDE_MOVE_TO_INDEX,
            )
        } else {
            (
                BLACK_KINGSIDE_RIGHTS,
                BLACK_QUEENSIDE_RIGHTS,
                BLACK_KINGSIDE_SQUARES,
                BLACK_QUEENSIDE_SQUARES,
                BLACK_KINGSIDE_MOVE_TO_INDEX,
                BLACK_QUEENSIDE_MOVE_TO_INDEX,
            )
        };
        proof {
            lemma_move_code(king_index as int, kto as int, Prom::NoProm);
            lemma_move_code(king_index as int, qto as int, Prom::NoProm);
        }
        if info & kr != 0 && occupied & ksq == 0 {
            moves.add(Move::from_squares(king_index, kto, Prom::NoProm));
        }
        if info & qr != 0 && occupied & qsq == 0 {
            moves.add(Move::from_squares(king_index, qto, Prom::NoProm));
        }
        assert(moves.codes() =~= c1 + castle_moves_spec(self@));
        self.push_other_moves(&mut moves);
        assert(moves.codes() =~= pseudo_moves(self@));
        moves
    }
}

impl Fen {
    /// Square `index` is attacked by the opponent of `white`, given the occupied squares.
    fn opponent_attacks(&self, white: bool, index: usize, occupied: u64) -> (res: bool)
        requires
            index < 64,
        ensures
            res == attacked_by_opponent(self@, white, index as int, occupied),
    {
        if white {
            self.is_square_attacked_white(index, occupied)
        } else {
            self.is_square_attacked_black(index, occupied)
        }
    }

    /// Appends the king steps to `targets` not attacked once the king has left its square.
    fn push_safe_king_steps(&self, moves: &mut Moves, king_index: usize, targets: u64, occupied: u64)
        requires
            old(moves).wf(),
            old(moves).tight(),
            king_index < 64,
            old(moves).size <= 0x10_0000,
        ensures
            final(moves).wf(),
            final(moves).tight(),
            final(moves).codes() == old(moves).codes() + safe_king_steps(
                self@,
                king_index as int,
                squares(targets),
                occupied,
            ),
            final(moves).size <= old(moves).size + 64,
    {
        let white = self.white_to_move();
        let mut rest = targets;
        let ghost mut lo: int = 0;
        let ghost mut done: Seq<int> = Seq::empty();
        proof {
            lemma_bits_from_len(targets, 0);
        }
        while rest != 0
            invariant
                moves.wf(),
                moves.tight(),
                king_index < 64,
                white == white_turn(self@),
                old(moves).size <= 0x10_0000,
                0 <= lo <= 64,
                forall|j: int| bit(rest, j) <==> bit(targets, j) && lo <= j,
                squares(targets) == done + bits_from(targets, lo),
                squares(targets).len() <= 64,
                moves.codes() == old(moves).codes() + safe_king_steps(
                    self@,
                    king_index as int,
                    done,
                    occupied,
                ),
                moves.size <= old(moves).size + done.len(),
            decreases 64 - lo,
        {
            proof {
                lemma_walk_step(targets, rest, lo);
            }
            let index = rest.trailing_zeros() as usize;
            if !self.opponent_attacks(white, index, occupied) {
                proof {
                    lemma_move_code(king_index as int, index as int, Prom::NoProm);
                }
                moves.add(Move::from_squares(king_index, index, Prom::NoProm));
            }
            proof {
                let nd = done.push(index as int);
                assert(nd.drop_last() =~= done);
                assert(nd + bits_from(targets, index + 1) =~= done + bits_from(targets, lo));
                done = nd;
                lo = index + 1;
            }
            rest = rest & (rest - 1);
        }
        proof {
            lemma_walk_end(targets, lo);
            assert(done =~= squares(targets));
        }
    }

    /// Appends the moves of `candidates` that leave the mover's king safe, in order.
    fn push_safe_moves(&self, moves: &mut Moves, candidates: &Moves)
        requires
            old(moves).wf(),
            old(moves).tight(),
            candidates.wf(),
            old(moves).size <= 0x10_0000,
            candidates.size <= 0x10_0000,
        ensures
            final(moves).wf(),
            final(moves).tight(),
            final(moves).codes() == old(moves).codes() + safe_moves(self@, candidates.codes()),
    {
        let white = self.white_to_move();
        for i in 0..candidates.size
            invariant
                moves.wf(),
                moves.tight(),
                candidates.wf(),
                white == white_turn(self@),
                old(moves).size <= 0x10_0000,
                candidates.size <= 0x10_0000,
                moves.size <= old(moves).size + i,
                moves.codes() == old(moves).codes() + safe_moves(
                    self@,
                    candidates.codes().take(i as int),
                ),
        {
            let m = candidates.array[i];
            let mut after = Fen { array: self.array };
            after.make_move(m);
            let king = if white {
                after.array[KING_W]
            } else {
                after.array[KING_B]
            };
            let mut safe = false;
            if king != 0 {
                let king_index = king.trailing_zeros() as usize;
                let occupied = crate::board::get_occupancy(&after.array);
                safe = !after.opponent_attacks(white, king_index, occupied);
            }
            proof {
                assert(candidates.codes().take(i + 1).drop_last() =~= candidates.codes().take(
                    i as int,
                ));
                assert(candidates.codes().take(i + 1).last() == m.move1);
            }
            if safe {
                moves.add(m);
            }
        }
        assert(candidates.codes().take(candidates.size as int) =~= candidates.codes());
    }

    /// The legal moves of the side to move: king steps to squares the opponent does not attack
    /// once the king has left its square, castling that neither starts in nor crosses check,
    /// and the other pseudo-legal moves after which the mover's king is not attacked.
    ///
    /// Each candidate is played on a copy of the position and kept when the king is then safe;
    /// there are no check or pin masks. On valid positions (see `validity`) the result is the
    /// list of legal moves of chess. On positions that play cannot reach it can differ from a
    /// mask-based generator: with the two kings side by side, for one, the other king counts as
    /// an attacker, so only king moves that step out of its reach remain, where a generator
    /// that leaves kings out of its check mask would also list the other pieces' moves.
    pub fn get_moves(&self) -> (res: Moves)
        requires
            has_own_king(self@),
        ensures
            res.wf(),
            res.tight(),
            res.codes() == legal_moves(self@),
    {
        let mut moves = Moves::empty();
        let white = self.white_to_move();
        let (king_index, king_moves) = self.king_targets();
        let king = if white {
            self.array[KING_W]
        } else {
            self.array[KING_B]
        };
        let occupied = crate::board::get_occupancy(&self.array);
        self.push_safe_king_steps(&mut moves, king_index, king_moves, occupied & !king);
        let ghost c1 = moves.codes();

        let info = self.array[INFO];
        let (kr, qr, ksq, qsq, kto, qto) = if white {
            (
                WHITE_KINGSIDE_RIGHTS,
                WHITE_QUEENSIDE_RIGHTS,
                WHITE_KINGSIDE_SQUARES,
                WHITE_QUEENSIDE_SQUARES,
                WHITE_KINGSIDE_MOVE_TO_INDEX,
                WHITE_QUEENSIDE_MOVE_TO_INDEX,
            )
        } else {
            (
                BLACK_KINGSIDE_RIGHTS,
                BLACK_QUEENSIDE_RIGHTS,
                BLACK_KINGSIDE_SQUARES,
                BLACK_QUEENSIDE_SQUARES,
                BLACK_KINGSIDE_MOVE_TO_INDEX,
                BLACK_QUEENSIDE_MOVE_TO_INDEX,
            )
        };
        let (ka1, ka2, qa1, qa2) = if white {
            (
                WHITE_KINGSIDE_ATTACK_1,
                WHITE_KINGSIDE_ATTACK_2,
                WHITE_QUEENSIDE_ATTACK_1,
                WHITE_QUEENSIDE_ATTACK_2,
            )
        } else {
            (
                BLACK_KINGSIDE_ATTACK_1,
                BLACK_KINGSIDE_ATTACK_2,
                BLACK_QUEENSIDE_ATTACK_1,
                BLACK_QUEENSIDE_ATTACK_2,
            )
        };
        proof {
            lemma_move_code(king_index as int, kto as int, Prom::NoProm);
            lemma_move_code(king_index as int, qto as int, Prom::NoProm);
        }
        let in_check = self.opponent_attacks(white, king_index, occupied);

        // We check if castling kingside is allowed and if there are no pieces in between
        if !in_check && info & kr != 0 && occupied & ksq == 0 {
            // Checking if squares are under attack is relatively expensive
            if !self.opponent_attacks(white, ka1, occupied) {
                if !self.opponent_attacks(white, ka2, occupied) {
                    moves.add(Move::from_squares(king_index, kto, Prom::NoProm));
                }
            }
        }
        // We check if castling queenside is allowed and if there are no pieces in between
        if !in_check && info & qr != 0 && occupied & qsq == 0 {
            if !self.opponent_attacks(white, qa1, occupied) {
                if !self.opponent_attacks(white, qa2, occupied) {
                    moves.add(Move::from_squares(king_index, qto, Prom::NoProm));
                }
            }
        }
        assert(moves.codes() =~= c1 + legal_castle_moves(self@));
        let ghost c2 = moves.codes();

        let mut others = Moves::empty();
        self.push_other_moves(&mut others);
        self.push_safe_moves(&mut moves, &others);
        assert(moves.codes() =~= legal_moves(self@)) by {
            reveal(legal_moves);
        }
        moves
    }
}

} // verus!
