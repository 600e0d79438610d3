use vstd::prelude::*;
use vstd::std_specs::bits::u64_trailing_zeros;
use crate::bitboard::{bit, square_bb, group_bits};
use crate::attacks::{
    knight_bb, king_bb, white_pawn_bb, black_pawn_bb, rook_bb, bishop_bb, knight_attacks,
    king_attacks, white_pawn_attacks, black_pawn_attacks, get_rook_moves, get_bishop_moves,
};
use crate::board::{
    FenArray, PAWN_W, KNIGHT_W, BISHOP_W, ROOK_W, QUEEN_W, KING_W, PAWN_B, KNIGHT_B, BISHOP_B,
    ROOK_B, QUEEN_B, KING_B, INFO, PIECE_TYPES, EMPTY, NO_ENPASSANT_FLAG, HALFMOVE_FLAG,
    FULLMOVE_FLAG, TURN_FLAG, WHITE_KINGSIDE_RIGHTS, WHITE_QUEENSIDE_RIGHTS, BLACK_KINGSIDE_RIGHTS,
    BLACK_QUEENSIDE_RIGHTS, RANK_2, RANK_4, RANK_5, RANK_7, WHITE_KINGSIDE_MOVE_TO,
    WHITE_QUEENSIDE_MOVE_TO, BLACK_KINGSIDE_MOVE_TO, BLACK_QUEENSIDE_MOVE_TO, WHITE_KINGSIDE_ROOK,
    WHITE_QUEENSIDE_ROOK, BLACK_KINGSIDE_ROOK, BLACK_QUEENSIDE_ROOK, WHITE_KINGSIDE_ROOK_MASK,
    WHITE_QUEENSIDE_ROOK_MASK, BLACK_KINGSIDE_ROOK_MASK, BLACK_QUEENSIDE_ROOK_MASK, white_of,
    black_of, occupied_of, get_occupancy, default_array, default_fen_array,
};
use crate::moves::{Move, Prom, from_sq, to_sq, prom_of};
use crate::parsing::{enpassant_of, info_to_enpassant, info_to_halfmove, info_to_fullmove,
    halfmove_to_info, fullmove_to_info, string_to_fen, fen_to_string, parse_fen, fen_text,
    fen_parse_stops};

verus! {

broadcast use group_bits;

/// White is to move in the position.
pub open spec fn white_turn(a: Seq<u64>) -> bool {
    a[INFO as int] & TURN_FLAG != 0
}

/// Square `i` is attacked by a black piece, given the occupied squares.
pub open spec fn attacked_by_black(a: Seq<u64>, i: int, occupied: u64) -> bool {
    (knight_bb(i) & a[KNIGHT_B as int]) | (white_pawn_bb(i) & a[PAWN_B as int]) | (king_bb(i)
        & a[KING_B as int]) | (rook_bb(i, occupied) & (a[ROOK_B as int] | a[QUEEN_B as int])) | (
    bishop_bb(i, occupied) & (a[BISHOP_B as int] | a[QUEEN_B as int])) != 0
}

/// Square `i` is attacked by a white piece, given the occupied squares.
pub open spec fn attacked_by_white(a: Seq<u64>, i: int, occupied: u64) -> bool {
    (knight_bb(i) & a[KNIGHT_W as int]) | (black_pawn_bb(i) & a[PAWN_W as int]) | (king_bb(i)
        & a[KING_W as int]) | (rook_bb(i, occupied) & (a[ROOK_W as int] | a[QUEEN_W as int])) | (
    bishop_bb(i, occupied) & (a[BISHOP_W as int] | a[QUEEN_W as int])) != 0
}

/// The square of the (lowest) king of the side to move.
pub open spec fn own_king_sq(a: Seq<u64>) -> int {
    if white_turn(a) {
        u64_trailing_zeros(a[KING_W as int]) as int
    } else {
        u64_trailing_zeros(a[KING_B as int]) as int
    }
}

/// The side to move has a king.
pub open spec fn has_own_king(a: Seq<u64>) -> bool {
    if white_turn(a) {
        a[KING_W as int] != 0
    } else {
        a[KING_B as int] != 0
    }
}

/// The king of the side to move is attacked.
pub open spec fn in_check_spec(a: Seq<u64>) -> bool {
    if white_turn(a) {
        attacked_by_black(a, own_king_sq(a), occupied_of(a))
    } else {
        attacked_by_white(a, own_king_sq(a), occupied_of(a))
    }
}

/// The first piece bitboard, from index `i` on, that meets `mask` (12 when none does).
pub open spec fn first_hit(a: Seq<u64>, mask: u64, i: int) -> int
    decreases 12 - i,
{
    if i >= 12 {
        12
    } else if a[i] & mask != 0 {
        i
    } else {
        first_hit(a, mask, i + 1)
    }
}

/// Flips `flip` in the first piece bitboard that meets `mask`.
pub open spec fn xor_first(a: Seq<u64>, mask: u64, flip: u64) -> Seq<u64> {
    let i = first_hit(a, mask, 0);
    if 0 <= i < 12 {
        a.update(i, a[i] ^ flip)
    } else {
        a
    }
}

/// Replaces the pawn on `to` with the promoted piece (`base` is 0 for white, 6 for black).
pub open spec fn promote(a: Seq<u64>, base: int, to: u64, prom: Prom) -> Seq<u64> {
    match prom {
        Prom::Queen => a.update(base, a[base] ^ to).update(base + 4, a[base + 4] ^ to),
        Prom::Bishop => a.update(base, a[base] ^ to).update(base + 2, a[base + 2] ^ to),
        Prom::Knight => a.update(base, a[base] ^ to).update(base + 1, a[base + 1] ^ to),
        Prom::Rook => a.update(base, a[base] ^ to).update(base + 3, a[base + 3] ^ to),
        Prom::NoProm => a,
    }
}

/// The halfmove clock after a move: reset by captures and pawn moves, else one more.
pub open spec fn next_halfmove(a: Seq<u64>, from: u64, to: u64) -> u64 {
    let halfmove = (a[INFO as int] & HALFMOVE_FLAG) >> 8;
    if to & occupied_of(a) == 0 && from & (a[PAWN_W as int] | a[PAWN_B as int]) == 0 {
        ((halfmove + 1) as u64) << 8
    } else {
        0
    }
}

/// The position after white plays the move with code `m`.
pub open spec fn make_move_white_spec(a: Seq<u64>, m: u16) -> Seq<u64> {
    let info = a[INFO as int];
    let ep = enpassant_of(info);
    let white_kingside = info & WHITE_KINGSIDE_RIGHTS != 0;
    let white_queenside = info & WHITE_QUEENSIDE_RIGHTS != 0;
    let black_kingside = info & BLACK_KINGSIDE_RIGHTS != 0;
    let black_queenside = info & BLACK_QUEENSIDE_RIGHTS != 0;
    let from = square_bb(from_sq(m));
    let to = square_bb(to_sq(m));
    let new_fullmove = info & FULLMOVE_FLAG;
    let king_moved = a[KING_W as int] & from != 0;
    let new_white_kingside = if white_kingside && !king_moved && (from & WHITE_KINGSIDE_ROOK
        == 0) {
        WHITE_KINGSIDE_RIGHTS
    } else {
        EMPTY
    };
    let new_white_queenside = if white_queenside && !king_moved && (from & WHITE_QUEENSIDE_ROOK
        == 0) {
        WHITE_QUEENSIDE_RIGHTS
    } else {
        EMPTY
    };
    let new_black_kingside = if black_kingside && (to & BLACK_KINGSIDE_ROOK == 0) {
        BLACK_KINGSIDE_RIGHTS
    } else {
        EMPTY
    };
    let new_black_queenside = if black_queenside && (to & BLACK_QUEENSIDE_ROOK == 0) {
        BLACK_QUEENSIDE_RIGHTS
    } else {
        EMPTY
    };
    let new_enpassant = if (to & RANK_4 != 0) && (from & a[PAWN_W as int] & RANK_2 != 0) {
        u64_trailing_zeros(from << 8u64) as u64
    } else {
        NO_ENPASSANT_FLAG
    };
    let new_halfmove = next_halfmove(a, from, to);
    let a1 = if king_moved && white_kingside && to == WHITE_KINGSIDE_MOVE_TO {
        a.update(ROOK_W as int, a[ROOK_W as int] ^ WHITE_KINGSIDE_ROOK_MASK)
    } else if king_moved && white_queenside && to == WHITE_QUEENSIDE_MOVE_TO {
        a.update(ROOK_W as int, a[ROOK_W as int] ^ WHITE_QUEENSIDE_ROOK_MASK)
    } else {
        a
    };
    let a2 = if ep == to && a1[PAWN_W as int] & from != 0 {
        a1.update(PAWN_B as int, a1[PAWN_B as int] ^ (to >> 8u64))
    } else {
        a1
    };
    let a3 = xor_first(a2, to, to);
    let a4 = xor_first(a3, from, from | to);
    let a5 = promote(a4, PAWN_W as int, to, prom_of(m));
    a5.update(
        INFO as int,
        new_enpassant | new_halfmove | new_fullmove | new_white_kingside | new_white_queenside
            | new_black_kingside | new_black_queenside,
    )
}

/// The position after black plays the move with code `m`.
pub open spec fn make_move_black_spec(a: Seq<u64>, m: u16) -> Seq<u64> {
    let info = a[INFO as int];
    let ep = enpassant_of(info);
    let fullmove = (info & FULLMOVE_FLAG) >> 24;
    let white_kingside = info & WHITE_KINGSIDE_RIGHTS != 0;
    let white_queenside = info & WHITE_QUEENSIDE_RIGHTS != 0;
    let black_kingside = info & BLACK_KINGSIDE_RIGHTS != 0;
    let black_queenside = info & BLACK_QUEENSIDE_RIGHTS != 0;
    let from = square_bb(from_sq(m));
    let to = square_bb(to_sq(m));
    let new_fullmove = ((fullmove + 1) as u64) << 24u64;
    let king_moved = a[KING_B as int] & from != 0;
    let new_white_kingside = if white_kingside && (to & WHITE_KINGSIDE_ROOK == 0) {
        WHITE_KINGSIDE_RIGHTS
    } else {
        EMPTY
    };
    let new_white_queenside = if white_queenside && (to & WHITE_QUEENSIDE_ROOK == 0) {
        WHITE_QUEENSIDE_RIGHTS
    } else {
        EMPTY
    };
    let new_black_kingside = if black_kingside && !king_moved && (from & BLACK_KINGSIDE_ROOK
        == 0) {
        BLACK_KINGSIDE_RIGHTS
    } else {
        EMPTY
    };
    let new_black_queenside = if black_queenside && !king_moved && (from & BLACK_QUEENSIDE_ROOK
        == 0) {
        BLACK_QUEENSIDE_RIGHTS
    } else {
        EMPTY
    };
    let new_enpassant = if (to & RANK_5 != 0) && (from & a[PAWN_B as int] & RANK_7 != 0) {
        u64_trailing_zeros(from >> 8u64) as u64
    } else {
        NO_ENPASSANT_FLAG
    };
    let new_halfmove = next_halfmove(a, from, to);
    let a1 = if king_moved && black_kingside && to == BLACK_KINGSIDE_MOVE_TO {
        a.update(ROOK_B as int, a[ROOK_B as int] ^ BLACK_KINGSIDE_ROOK_MASK)
    } else if king_moved && black_queenside && to == BLACK_QUEENSIDE_MOVE_TO {
        a.update(ROOK_B as int, a[ROOK_B as int] ^ BLACK_QUEENSIDE_ROOK_MASK)
    } else {
        a
    };
    let a2 = if ep == to && a1[PAWN_B as int] & from != 0 {
        a1.update(PAWN_W as int, a1[PAWN_W as int] ^ (to << 8u64))
    } else {
        a1
    };
    let a3 = xor_first(a2, to, to);
    let a4 = xor_first(a3, from, from | to);
    let a5 = promote(a4, PAWN_B as int, to, prom_of(m));
    a5.update(
        INFO as int,
        new_enpassant | TURN_FLAG | new_halfmove | new_fullmove | new_white_kingside
            | new_white_queenside | new_black_kingside | new_black_queenside,
    )
}

/// The position after the side to move plays the move with code `m`.
pub open spec fn make_move_spec(a: Seq<u64>, m: u16) -> Seq<u64> {
    if white_turn(a) {
        make_move_white_spec(a, m)
    } else {
        make_move_black_spec(a, m)
    }
}

proof fn lemma_counter_bounds(info: u64)
    by (bit_vector)
    ensures
        (info & 0xff_ff00) >> 8u64 <= 0xffff,
        (info & 0xff_ff00_0000) >> 24u64 <= 0xffff,
{
}

/// Flips `flip` in the first piece bitboard that meets `mask`.
fn xor_first_hit(array: &mut FenArray, mask: u64, flip: u64)
    ensures
        final(array)@ == xor_first(old(array)@, mask, flip),
{
    let mut i: usize = 0;
    while i < PIECE_TYPES
        invariant
            i <= 12,
            array@ == old(array)@,
            first_hit(array@, mask, 0) == first_hit(array@, mask, i as int),
        decreases 12 - i,
    {
        if array[i] & mask != 0 {
            array[i] = array[i] ^ flip;
            return;
        }
        i += 1;
    }
}

#[derive(Debug, Clone)]
pub struct Fen {
    pub array: FenArray,
}

impl View for Fen {
    type V = Seq<u64>;

    open spec fn view(&self) -> Seq<u64> {
        self.array@
    }
}

impl Fen {
    /// The starting position.
    pub fn new() -> (res: Self)
        ensures
            res@ == default_array(),
    {
        Self { array: default_fen_array() }
    }

    /// Reads a position from FEN text, or gives the error that the text deserves.
    pub fn from_str(fen_str: &str) -> (res: Result<Self, String>)
        requires
            !fen_parse_stops(fen_str@),
        ensures
            res matches Ok(f) ==> parse_fen(fen_str@) == Ok::<Seq<u64>, Seq<char>>(f@),
            res matches Err(e) ==> parse_fen(fen_str@) == Err::<Seq<u64>, Seq<char>>(e@),
    {
        let result = string_to_fen(fen_str);

        match result {
            Ok(array) => Ok(Self { array }),
            Err(error) => Err(error),
        }
    }

    /// The FEN text of the position.
    pub fn to_string(&self) -> (res: String)
        ensures
            res@ == fen_text(self@),
    {
        fen_to_string(self.array)
    }

    /// A copy of the position.
    pub fn clone_position(&self) -> (res: Self)
        ensures
            res@ == self@,
    {
        Self { array: self.array }
    }

    /// Whether the side to move has a king, which move generation and the check test need.
    pub fn has_king(&self) -> (res: bool)
        ensures
            res == has_own_king(self@),
    {
        if self.white_to_move() {
            self.array[KING_W] != 0
        } else {
            self.array[KING_B] != 0
        }
    }

    /// White is to move.
    pub fn white_to_move(&self) -> (res: bool)
        ensures
            res == white_turn(self@),
    {
        self.array[INFO] & TURN_FLAG != 0
    }

    /// Plays a move for the side to move.
    pub fn make_move(&mut self, move1: Move)
        ensures
            final(self)@ == make_move_spec(old(self)@, move1.move1),
    {
        if self.white_to_move() {
            self.make_move_white(move1);
        } else {
            self.make_move_black(move1);
        }
    }

    /// The king of the side to move is attacked.
    pub fn in_check(&self) -> (res: bool)
        requires
            has_own_king(self@),
        ensures
            res == in_check_spec(self@),
    {
        let occupied = get_occupancy(&self.array);
        if self.white_to_move() {
            let king_index = self.array[KING_W].trailing_zeros() as usize;
            self.is_square_attacked_white(king_index, occupied)
        } else {
            let king_index = self.array[KING_B].trailing_zeros() as usize;
            self.is_square_attacked_black(king_index, occupied)
        }
    }

    fn make_move_white(&mut self, move1: Move)
        ensures
            final(self)@ == make_move_white_spec(old(self)@, move1.move1),
    {
        // Any move code on any position: the contract says what comes out, legal or not.

        let info = self.array[INFO];

        let enpassant = info_to_enpassant(info);
        let halfmove = info_to_halfmove(info);

        let new_enpassant: u64;
        let new_halfmove: u64;

        let white_kingside = info & WHITE_KINGSIDE_RIGHTS != 0;
        let white_queenside = info & WHITE_QUEENSIDE_RIGHTS != 0;
        let black_kingside = info & BLACK_KINGSIDE_RIGHTS != 0;
        let black_queenside = info & BLACK_QUEENSIDE_RIGHTS != 0;

        let all_pieces = get_occupancy(&self.array);

        let from = move1.get_from();
        let to = move1.get_to();
        let prom = move1.get_prom();

        // We only need to increase the fullmove counter when black is to move
        // Also, since black is now to move, we leave turn flag blank in info
        let new_fullmove = info & FULLMOVE_FLAG;

        // We update the castle information
        let king_moved = self.array[KING_W] & from != 0;

        let new_white_kingside = if white_kingside && !king_moved && (from & WHITE_KINGSIDE_ROOK
            == 0) {
            WHITE_KINGSIDE_RIGHTS
        } else {
            EMPTY
        };
        let new_white_queenside = if white_queenside && !king_moved && (from & WHITE_QUEENSIDE_ROOK
            == 0) {
            WHITE_QUEENSIDE_RIGHTS
        } else {
            EMPTY
        };
        let new_black_kingside = if black_kingside && (to & BLACK_KINGSIDE_ROOK == 0) {
            BLACK_KINGSIDE_RIGHTS
        } else {
            EMPTY
        };
        let new_black_queenside = if black_queenside && (to & BLACK_QUEENSIDE_ROOK == 0) {
            BLACK_QUEENSIDE_RIGHTS
        } else {
            EMPTY
        };

        // We assign the new enpassant flag
        if (to & RANK_4 != 0) && (from & self.array[PAWN_W] & RANK_2 != 0) {
            new_enpassant = (from << 8).trailing_zeros() as u64;
        } else {
            new_enpassant = NO_ENPASSANT_FLAG;
        }

        // In case of capture or pawn movement, we increase halfmove, else we reset it
        proof {
            lemma_counter_bounds(info);
        }
        if (to & all_pieces == 0) && (from & (self.array[PAWN_W] | self.array[PAWN_B]) == 0) {
            new_halfmove = halfmove_to_info(halfmove + 1);
        } else {
            new_halfmove = 0;
        }
        assert(new_halfmove == next_halfmove(old(self)@, from, to));

        // If there is a castle, we move the respective rook
        if king_moved && white_kingside && (to == WHITE_KINGSIDE_MOVE_TO) {
            self.array[ROOK_W] = self.array[ROOK_W] ^ WHITE_KINGSIDE_ROOK_MASK;
        } else if king_moved && white_queenside && (to == WHITE_QUEENSIDE_MOVE_TO) {
            self.array[ROOK_W] = self.array[ROOK_W] ^ WHITE_QUEENSIDE_ROOK_MASK;
        }

        // If there is an enpassant, we remove the captured pawn
        if (enpassant == to) && (self.array[PAWN_W] & from != 0) {
            self.array[PAWN_B] = self.array[PAWN_B] ^ (to >> 8);
        }

        // In case of a capture, we remove the captured piece
        xor_first_hit(&mut self.array, to, to);

        // We move the piece of this move to its new place
        xor_first_hit(&mut self.array, from, from | to);

        // In case of promotion we replace the pawn with the new piece
        match prom {
            Prom::Queen => {
                self.array[PAWN_W] = self.array[PAWN_W] ^ to;
                self.array[QUEEN_W] = self.array[QUEEN_W] ^ to;
            },
            Prom::Bishop => {
                self.array[PAWN_W] = self.array[PAWN_W] ^ to;
                self.array[BISHOP_W] = self.array[BISHOP_W] ^ to;
            },
            Prom::Knight => {
                self.array[PAWN_W] = self.array[PAWN_W] ^ to;
                self.array[KNIGHT_W] = self.array[KNIGHT_W] ^ to;
            },
            Prom::Rook => {
                self.array[PAWN_W] = self.array[PAWN_W] ^ to;
                self.array[ROOK_W] = self.array[ROOK_W] ^ to;
            },
            Prom::NoProm => {},
        }

        self.array[INFO] = new_enpassant | new_halfmove | new_fullmove | new_white_kingside
            | new_white_queenside | new_black_kingside | new_black_queenside;
        assert(self@ =~= make_move_white_spec(old(self)@, move1.move1));
    }

    fn make_move_black(&mut self, move1: Move)
        ensures
            final(self)@ == make_move_black_spec(old(self)@, move1.move1),
    {
        // Any move code on any position: the contract says what comes out, legal or not.

        let info = self.array[INFO];

        let enpassant = info_to_enpassant(info);
        let halfmove = info_to_halfmove(info);
        let fullmove = info_to_fullmove(info);

        let new_enpassant: u64;
        let new_halfmove: u64;

        let white_kingside = info & WHITE_KINGSIDE_RIGHTS != 0;
        let white_queenside = info & WHITE_QUEENSIDE_RIGHTS != 0;
        let black_kingside = info & BLACK_KINGSIDE_RIGHTS != 0;
        let black_queenside = info & BLACK_QUEENSIDE_RIGHTS != 0;

        let all_pieces = get_occupancy(&self.array);

        let from = move1.get_from();
        let to = move1.get_to();
        let prom = move1.get_prom();

        // When black is to move, we increase the fullmove counter by one
        proof {
            lemma_counter_bounds(info);
        }
        let new_turn = TURN_FLAG;
        let new_fullmove = fullmove_to_info(fullmove + 1);

        // We update the castle information
        let king_moved = self.array[KING_B] & from != 0;

        let new_white_kingside = if white_kingside && (to & WHITE_KINGSIDE_ROOK == 0) {
            WHITE_KINGSIDE_RIGHTS
        } else {
            EMPTY
        };
        let new_white_queenside = if white_queenside && (to & WHITE_QUEENSIDE_ROOK == 0) {
            WHITE_QUEENSIDE_RIGHTS
        } else {
            EMPTY
        };
        let new_black_kingside = if black_kingside && !king_moved && (from & BLACK_KINGSIDE_ROOK
            == 0) {
            BLACK_KINGSIDE_RIGHTS
        } else {
            EMPTY
        };
        let new_black_queenside = if black_queenside && !king_moved && (from & BLACK_QUEENSIDE_ROOK
            == 0) {
            BLACK_QUEENSIDE_RIGHTS
        } else {
            EMPTY
        };

        // We assign the new enpassant flag
        if (to & RANK_5 != 0) && (from & self.array[PAWN_B] & RANK_7 != 0) {
            new_enpassant = (from >> 8).trailing_zeros() as u64;
        } else {
            new_enpassant = NO_ENPASSANT_FLAG;
        }

        // In case of capture or pawn movement, we increase halfmove, else we reset it
        if (to & all_pieces == 0) && (from & (self.array[PAWN_W] | self.array[PAWN_B]) == 0) {
            new_halfmove = halfmove_to_info(halfmove + 1);
        } else {
            new_halfmove = 0;
        }
        assert(new_halfmove == next_halfmove(old(self)@, from, to));

        // If there is a castle, we move the respective rook
        if king_moved && black_kingside && (to == BLACK_KINGSIDE_MOVE_TO) {
            self.array[ROOK_B] = self.array[ROOK_B] ^ BLACK_KINGSIDE_ROOK_MASK;
        } else if king_moved && black_queenside && (to == BLACK_QUEENSIDE_MOVE_TO) {
            self.array[ROOK_B] = self.array[ROOK_B] ^ BLACK_QUEENSIDE_ROOK_MASK;
        }

        // If there is an enpassant, we remove the captured pawn
        if (enpassant == to) && (self.array[PAWN_B] & from != 0) {
            self.array[PAWN_W] = self.array[PAWN_W] ^ (to << 8);
        }

        // In case of a capture, we remove the captured piece
        xor_first_hit(&mut self.array, to, to);

        // We move the piece of this move to its new place
        xor_first_hit(&mut self.array, from, from | to);

        // In case of promotion we replace the pawn with the new piece
        match prom {
            Prom::Queen => {
                self.array[PAWN_B] = self.array[PAWN_B] ^ to;
                self.array[QUEEN_B] = self.array[QUEEN_B] ^ to;
            },
            Prom::Bishop => {
                self.array[PAWN_B] = self.array[PAWN_B] ^ to;
                self.array[BISHOP_B] = self.array[BISHOP_B] ^ to;
            },
            Prom::Knight => {
                self.array[PAWN_B] = self.array[PAWN_B] ^ to;
                self.array[KNIGHT_B] = self.array[KNIGHT_B] ^ to;
            },
            Prom::Rook => {
                self.array[PAWN_B] = self.array[PAWN_B] ^ to;
                self.array[ROOK_B] = self.array[ROOK_B] ^ to;
            },
            Prom::NoProm => {},
        }

        self.array[INFO] = new_enpassant | new_turn | new_halfmove | new_fullmove
            | new_white_kingside | new_white_queenside | new_black_kingside | new_black_queenside;
        assert(self@ =~= make_move_black_spec(old(self)@, move1.move1));
    }

    pub(crate) fn is_square_attacked_white(&self, index: usize, occupied: u64) -> (res: bool)
        requires
            index < 64,
        ensures
            res == attacked_by_black(self@, index as int, occupied),
    {
        // We let the square make the moves of each piece, to see if there is a piece that is attacking the square.
        let knight_attacks = knight_attacks(index) & self.array[KNIGHT_B];
        let pawn_attacks = white_pawn_attacks(index) & self.array[PAWN_B];
        let king_attacks = king_attacks(index) & self.array[KING_B];
        let rook_or_queen_attacks = get_rook_moves(index, occupied) & (self.array[ROOK_B]
            | self.array[QUEEN_B]);
        let bishop_or_queen_attacks = get_bishop_moves(index, occupied) & (self.array[BISHOP_B]
            | self.array[QUEEN_B]);

        knight_attacks | pawn_attacks | king_attacks | rook_or_queen_attacks
            | bishop_or_queen_attacks != 0
    }

    pub(crate) fn is_square_attacked_black(&self, index: usize, occupied: u64) -> (res: bool)
        requires
            index < 64,
        ensures
            res == attacked_by_white(self@, index as int, occupied),
    {
        // We let the square make the moves of each piece, to see if there is a piece that is attacking the square.
        let knight_attacks = knight_attacks(index) & self.array[KNIGHT_W];
        let pawn_attacks = black_pawn_attacks(index) & self.array[PAWN_W];
        let king_attacks = king_attacks(index) & self.array[KING_W];
        let rook_or_queen_attacks = get_rook_moves(index, occupied) & (self.array[ROOK_W]
            | self.array[QUEEN_W]);
        let bishop_or_queen_attacks = get_bishop_moves(index, occupied) & (self.array[BISHOP_W]
            | self.array[QUEEN_W]);

        knight_attacks | pawn_attacks | king_attacks | rook_or_queen_attacks
            | bishop_or_queen_attacks != 0
    }
}

} // verus!
