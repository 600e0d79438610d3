use vstd::prelude::*;
use crate::bitboard::{bit, group_bits};

verus! {

broadcast use group_bits;

/// Indices into a position array: twelve piece bitboards, the two colour unions and the
/// packed game information.
pub const PAWN_W: usize = 0;
pub const KNIGHT_W: usize = 1;
pub const BISHOP_W: usize = 2;
pub const ROOK_W: usize = 3;
pub const QUEEN_W: usize = 4;
pub const KING_W: usize = 5;
pub const PAWN_B: usize = 6;
pub const KNIGHT_B: usize = 7;
pub const BISHOP_B: usize = 8;
pub const ROOK_B: usize = 9;
pub const QUEEN_B: usize = 10;
pub const KING_B: usize = 11;
pub const WHITE: usize = 12;
pub const BLACK: usize = 13;
pub const INFO: usize = 14;

pub const PIECE_TYPES: usize = 12;
pub const FEN_ARRAY_SIZE: usize = 15;

/// A position: the piece bitboards, the colour unions and the game information.
pub type FenArray = [u64; 15];

pub const EMPTY: u64 = 0;
/// The a8 square, the first square of a FEN board.
pub const FIRST: u64 = 0x8000_0000_0000_0000;

/// Layout of the information word: bits 0..7 the en passant square (64 for none), bits 8..24
/// the halfmove clock, bits 24..40 the fullmove number, bit 40 the side to move (set for
/// white) and bits 41..45 the castling rights.
pub const ENPASSANT_FLAG: u64 = 0x7f;
pub const NO_ENPASSANT_FLAG: u64 = 64;
pub const HALFMOVE_FLAG: u64 = 0xff_ff00;
pub const FULLMOVE_FLAG: u64 = 0xff_ff00_0000;
pub const TURN_FLAG: u64 = 0x100_0000_0000;
pub const WHITE_KINGSIDE_RIGHTS: u64 = 0x200_0000_0000;
pub const WHITE_QUEENSIDE_RIGHTS: u64 = 0x400_0000_0000;
pub const BLACK_KINGSIDE_RIGHTS: u64 = 0x800_0000_0000;
pub const BLACK_QUEENSIDE_RIGHTS: u64 = 0x1000_0000_0000;

pub const RANK_2: u64 = 0xff00;
pub const RANK_4: u64 = 0xff00_0000;
pub const RANK_5: u64 = 0xff_0000_0000;
pub const RANK_7: u64 = 0xff_0000_0000_0000;

/// Squares that must be empty to castle.
pub const WHITE_KINGSIDE_SQUARES: u64 = 0x06;
pub const WHITE_QUEENSIDE_SQUARES: u64 = 0x70;
pub const BLACK_KINGSIDE_SQUARES: u64 = 0x0600_0000_0000_0000;
pub const BLACK_QUEENSIDE_SQUARES: u64 = 0x7000_0000_0000_0000;

/// Target squares of the king when castling.
pub const WHITE_KINGSIDE_MOVE_TO_INDEX: usize = 1;
pub const WHITE_QUEENSIDE_MOVE_TO_INDEX: usize = 5;
pub const BLACK_KINGSIDE_MOVE_TO_INDEX: usize = 57;
pub const BLACK_QUEENSIDE_MOVE_TO_INDEX: usize = 61;
pub const WHITE_KINGSIDE_MOVE_TO: u64 = 0x02;
pub const WHITE_QUEENSIDE_MOVE_TO: u64 = 0x20;
pub const BLACK_KINGSIDE_MOVE_TO: u64 = 0x0200_0000_0000_0000;
pub const BLACK_QUEENSIDE_MOVE_TO: u64 = 0x2000_0000_0000_0000;

/// Rook home squares.
pub const WHITE_KINGSIDE_ROOK: u64 = 0x01;
pub const WHITE_QUEENSIDE_ROOK: u64 = 0x80;
pub const BLACK_KINGSIDE_ROOK: u64 = 0x0100_0000_0000_0000;
pub const BLACK_QUEENSIDE_ROOK: u64 = 0x8000_0000_0000_0000;

/// The rook's from and to squares when castling.
pub const WHITE_KINGSIDE_ROOK_MASK: u64 = 0x05;
pub const WHITE_QUEENSIDE_ROOK_MASK: u64 = 0x90;
pub const BLACK_KINGSIDE_ROOK_MASK: u64 = 0x0500_0000_0000_0000;
pub const BLACK_QUEENSIDE_ROOK_MASK: u64 = 0x9000_0000_0000_0000;

/// Squares that may not be attacked when castling.
pub const WHITE_KINGSIDE_ATTACK_1: usize = 2;
pub const WHITE_KINGSIDE_ATTACK_2: usize = 1;
pub const WHITE_QUEENSIDE_ATTACK_1: usize = 4;
pub const WHITE_QUEENSIDE_ATTACK_2: usize = 5;
pub const BLACK_KINGSIDE_ATTACK_1: usize = 58;
pub const BLACK_KINGSIDE_ATTACK_2: usize = 57;
pub const BLACK_QUEENSIDE_ATTACK_1: usize = 60;
pub const BLACK_QUEENSIDE_ATTACK_2: usize = 61;

/// The white pieces of a position.
pub open spec fn white_of(a: Seq<u64>) -> u64 {
    a[0] | a[1] | a[2] | a[3] | a[4] | a[5]
}

/// The black pieces of a position.
pub open spec fn black_of(a: Seq<u64>) -> u64 {
    a[6] | a[7] | a[8] | a[9] | a[10] | a[11]
}

/// The occupied squares of a position.
pub open spec fn occupied_of(a: Seq<u64>) -> u64 {
    white_of(a) | black_of(a)
}

/// The squares of the white pieces.
pub fn get_white_pieces(array: &FenArray) -> (res: u64)
    ensures
        res == white_of(array@),
{
    array[PAWN_W] | array[KNIGHT_W] | array[BISHOP_W] | array[ROOK_W] | array[QUEEN_W]
        | array[KING_W]
}

/// The squares of the black pieces.
pub fn get_black_pieces(array: &FenArray) -> (res: u64)
    ensures
        res == black_of(array@),
{
    array[PAWN_B] | array[KNIGHT_B] | array[BISHOP_B] | array[ROOK_B] | array[QUEEN_B]
        | array[KING_B]
}

/// The occupied squares.
pub fn get_occupancy(array: &FenArray) -> (res: u64)
    ensures
        res == occupied_of(array@),
{
    get_white_pieces(array) | get_black_pieces(array)
}

/// The information word of the starting position.
pub open spec fn default_info() -> u64 {
    TURN_FLAG | WHITE_KINGSIDE_RIGHTS | WHITE_QUEENSIDE_RIGHTS | BLACK_KINGSIDE_RIGHTS
        | BLACK_QUEENSIDE_RIGHTS | NO_ENPASSANT_FLAG | 0x100_0000
}

/// The starting position.
pub open spec fn default_array() -> Seq<u64> {
    seq![
        0xff00u64,
        0x42u64,
        0x24u64,
        0x81u64,
        0x10u64,
        0x08u64,
        0x00ff_0000_0000_0000u64,
        0x4200_0000_0000_0000u64,
        0x2400_0000_0000_0000u64,
        0x8100_0000_0000_0000u64,
        0x1000_0000_0000_0000u64,
        0x0800_0000_0000_0000u64,
        0xffffu64,
        0xffff_0000_0000_0000u64,
        default_info(),
    ]
}

/// The starting position.
pub fn default_fen_array() -> (res: FenArray)
    ensures
        res@ == default_array(),
{
    let res: FenArray = [
        0xff00,
        0x42,
        0x24,
        0x81,
        0x10,
        0x08,
        0x00ff_0000_0000_0000,
        0x4200_0000_0000_0000,
        0x2400_0000_0000_0000,
        0x8100_0000_0000_0000,
        0x1000_0000_0000_0000,
        0x0800_0000_0000_0000,
        0xffff,
        0xffff_0000_0000_0000,
        TURN_FLAG | WHITE_KINGSIDE_RIGHTS | WHITE_QUEENSIDE_RIGHTS | BLACK_KINGSIDE_RIGHTS
            | BLACK_QUEENSIDE_RIGHTS | NO_ENPASSANT_FLAG | 0x100_0000,
    ];
    assert(res@ =~= default_array());
    res
}

} // verus!
