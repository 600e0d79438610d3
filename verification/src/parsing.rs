use vstd::prelude::*;
use vstd::string::StrSliceExecFns;
use vstd::std_specs::bits::u64_trailing_zeros;
use crate::bitboard::{bit, square_bb, group_bits, bb_of, lemma_bb_of};
use crate::board::{
    PAWN_W, KNIGHT_W, BISHOP_W, ROOK_W, QUEEN_W, KING_W, PAWN_B, KNIGHT_B, BISHOP_B, ROOK_B,
    QUEEN_B, KING_B, ENPASSANT_FLAG, HALFMOVE_FLAG, FULLMOVE_FLAG, EMPTY, FenArray, WHITE, BLACK,
    INFO, PIECE_TYPES, FIRST, white_of, black_of, get_white_pieces, get_black_pieces,
};
use crate::text::{push_char, push_chars, push_decimal, decimal, digit_char, str_to_chars};
use crate::board::{TURN_FLAG, WHITE_KINGSIDE_RIGHTS, WHITE_QUEENSIDE_RIGHTS,
    BLACK_KINGSIDE_RIGHTS, BLACK_QUEENSIDE_RIGHTS, NO_ENPASSANT_FLAG};

verus! {

broadcast use group_bits, vstd::string::group_string_axioms;

/// File index of a file letter, counted from the h file; `usize::MAX` for anything else.
pub open spec fn file_index(c: char) -> usize {
    if c == 'a' {
        7
    } else if c == 'b' {
        6
    } else if c == 'c' {
        5
    } else if c == 'd' {
        4
    } else if c == 'e' {
        3
    } else if c == 'f' {
        2
    } else if c == 'g' {
        1
    } else if c == 'h' {
        0
    } else {
        usize::MAX
    }
}

/// Rank index of a rank digit, counted from the first rank; `usize::MAX` for anything else.
pub open spec fn rank_index(c: char) -> usize {
    if c == '1' {
        0
    } else if c == '2' {
        1
    } else if c == '3' {
        2
    } else if c == '4' {
        3
    } else if c == '5' {
        4
    } else if c == '6' {
        5
    } else if c == '7' {
        6
    } else if c == '8' {
        7
    } else {
        usize::MAX
    }
}

/// The letter of a file index; `-` for an index off the board.
pub open spec fn file_char(file: int) -> char {
    if 0 <= file < 8 {
        ('h' as int - file) as char
    } else {
        '-'
    }
}

/// The digit of a rank index; `-` for an index off the board.
pub open spec fn rank_char(rank: int) -> char {
    if 0 <= rank < 8 {
        ('1' as int + rank) as char
    } else {
        '-'
    }
}

/// The two characters name a square.
pub open spec fn valid_lan_chars(cs: Seq<char>) -> bool {
    cs.len() == 2 && file_index(cs[0]) != usize::MAX && rank_index(cs[1]) != usize::MAX
}

/// The square named by a valid pair of characters.
pub open spec fn lan_square(cs: Seq<char>) -> int {
    rank_index(cs[1]) * 8 + file_index(cs[0])
}

/// The name of the lowest square of a bitboard (`h-` for the empty bitboard).
pub open spec fn square_name(b: u64) -> Seq<char> {
    let pos = u64_trailing_zeros(b) as int;
    seq![file_char(pos % 8), rank_char(pos / 8)]
}

/// Checks if given lan is valid
pub fn is_valid_lan(lan: &str) -> (res: bool)
    ensures
        res == (lan.len() == 2 && valid_lan_chars(lan@)),
{
    if lan.len() != 2 || lan.unicode_len() != 2 {
        return false;
    }
    let file_str = lan.get_char(0);
    let rank_str = lan.get_char(1);

    let file = lan_to_file(file_str);
    let rank = lan_to_rank(rank_str);

    file != usize::MAX && rank != usize::MAX
}

/// Maps file letter to file index, starting from the h file
pub fn lan_to_file(letter: char) -> (res: usize)
    ensures
        res == file_index(letter),
{
    match letter {
        'a' => 7,
        'b' => 6,
        'c' => 5,
        'd' => 4,
        'e' => 3,
        'f' => 2,
        'g' => 1,
        'h' => 0,
        _ => usize::MAX,
    }
}

/// Maps file index to file letter, starting from the h file
pub fn file_to_lan(file: usize) -> (res: String)
    ensures
        res@ == seq![file_char(file as int)],
{
    let letter = match file {
        7 => 'a',
        6 => 'b',
        5 => 'c',
        4 => 'd',
        3 => 'e',
        2 => 'f',
        1 => 'g',
        0 => 'h',
        _ => '-',
    };
    let mut res = String::new();
    push_char(&mut res, letter);
    res
}

/// Maps rank letter to rank index, starting from the 1 rank
pub fn lan_to_rank(letter: char) -> (res: usize)
    ensures
        res == rank_index(letter),
{
    match letter {
        '1' => 0,
        '2' => 1,
        '3' => 2,
        '4' => 3,
        '5' => 4,
        '6' => 5,
        '7' => 6,
        '8' => 7,
        _ => usize::MAX,
    }
}

/// Maps rank index to rank letter, starting from the 1 rank
pub fn rank_to_lan(rank: usize) -> (res: String)
    ensures
        res@ == seq![rank_char(rank as int)],
{
    let letter = match rank {
        0 => '1',
        1 => '2',
        2 => '3',
        3 => '4',
        4 => '5',
        5 => '6',
        6 => '7',
        7 => '8',
        _ => '-',
    };
    let mut res = String::new();
    push_char(&mut res, letter);
    res
}

/// Converts bitboard to LAN notation
pub fn bitboard_to_lan(bitboard: u64) -> (res: String)
    ensures
        res@ == square_name(bitboard),
{
    let pos = bitboard.trailing_zeros() as usize;
    let file = pos % 8;
    let rank = pos / 8;
    let mut res = String::new();
    push_char(&mut res, file_letter(file));
    push_char(&mut res, rank_digit(rank));
    res
}

fn file_letter(file: usize) -> (res: char)
    ensures
        res == file_char(file as int),
{
    match file {
        7 => 'a',
        6 => 'b',
        5 => 'c',
        4 => 'd',
        3 => 'e',
        2 => 'f',
        1 => 'g',
        0 => 'h',
        _ => '-',
    }
}

fn rank_digit(rank: usize) -> (res: char)
    ensures
        res == rank_char(rank as int),
{
    match rank {
        0 => '1',
        1 => '2',
        2 => '3',
        3 => '4',
        4 => '5',
        5 => '6',
        6 => '7',
        7 => '8',
        _ => '-',
    }
}

/// Converts LAN notation to bitboard
pub fn lan_to_bitboard(lan: &str) -> (res: u64)
    requires
        lan@.len() >= 2,
        file_index(lan@[0]) != usize::MAX,
        rank_index(lan@[1]) != usize::MAX,
    ensures
        res == square_bb(lan_square(lan@)),
{
    let file_str = lan.get_char(0);
    let rank_str = lan.get_char(1);

    let file = lan_to_file(file_str);
    let rank = lan_to_rank(rank_str);

    1u64 << (rank * 8 + file)
}

/// The character of each piece index; `-` for anything else.
pub open spec fn piece_char(piece: int) -> char {
    if piece == 0 {
        'P'
    } else if piece == 6 {
        'p'
    } else if piece == 5 {
        'K'
    } else if piece == 11 {
        'k'
    } else if piece == 4 {
        'Q'
    } else if piece == 10 {
        'q'
    } else if piece == 2 {
        'B'
    } else if piece == 8 {
        'b'
    } else if piece == 1 {
        'N'
    } else if piece == 7 {
        'n'
    } else if piece == 3 {
        'R'
    } else if piece == 9 {
        'r'
    } else {
        '-'
    }
}

/// The piece index of each piece character; `usize::MAX` for anything else.
pub open spec fn char_piece(c: char) -> usize {
    if c == 'P' {
        PAWN_W
    } else if c == 'p' {
        PAWN_B
    } else if c == 'K' {
        KING_W
    } else if c == 'k' {
        KING_B
    } else if c == 'Q' {
        QUEEN_W
    } else if c == 'q' {
        QUEEN_B
    } else if c == 'B' {
        BISHOP_W
    } else if c == 'b' {
        BISHOP_B
    } else if c == 'N' {
        KNIGHT_W
    } else if c == 'n' {
        KNIGHT_B
    } else if c == 'R' {
        ROOK_W
    } else if c == 'r' {
        ROOK_B
    } else {
        usize::MAX
    }
}

/// Maps piece index to its char
pub fn piece_to_char(piece: usize) -> (res: char)
    ensures
        res == piece_char(piece as int),
{
    match piece {
        PAWN_W => 'P',
        PAWN_B => 'p',
        KING_W => 'K',
        KING_B => 'k',
        QUEEN_W => 'Q',
        QUEEN_B => 'q',
        BISHOP_W => 'B',
        BISHOP_B => 'b',
        KNIGHT_W => 'N',
        KNIGHT_B => 'n',
        ROOK_W => 'R',
        ROOK_B => 'r',
        _ => '-',
    }
}

/// Maps char to its piece index
pub fn char_to_piece(c: char) -> (res: usize)
    ensures
        res == char_piece(c),
{
    match c {
        'P' => PAWN_W,
        'p' => PAWN_B,
        'K' => KING_W,
        'k' => KING_B,
        'Q' => QUEEN_W,
        'q' => QUEEN_B,
        'B' => BISHOP_W,
        'b' => BISHOP_B,
        'N' => KNIGHT_W,
        'n' => KNIGHT_B,
        'R' => ROOK_W,
        'r' => ROOK_B,
        _ => usize::MAX,
    }
}

/// The en passant bitboard stored in an information word (empty when none is stored).
pub open spec fn enpassant_of(info: u64) -> u64 {
    let shift = info & ENPASSANT_FLAG;
    if shift >= 64 {
        EMPTY
    } else {
        1u64 << shift
    }
}

/// The halfmove clock placed in its field of the information word.
pub fn halfmove_to_info(halfmove: u64) -> (res: u64)
    ensures
        res == halfmove << 8,
{
    halfmove << 8
}

/// The halfmove clock read from the information word.
pub fn info_to_halfmove(info: u64) -> (res: u64)
    ensures
        res == (info & HALFMOVE_FLAG) >> 8,
{
    (info & HALFMOVE_FLAG) >> 8
}

/// The fullmove number placed in its field of the information word.
pub fn fullmove_to_info(fullmove: u64) -> (res: u64)
    ensures
        res == fullmove << 24,
{
    fullmove << 24
}

/// The fullmove number read from the information word.
pub fn info_to_fullmove(info: u64) -> (res: u64)
    ensures
        res == (info & FULLMOVE_FLAG) >> 24,
{
    (info & FULLMOVE_FLAG) >> 24
}

/// The en passant square (a bitboard, empty for none) placed in the information word.
pub fn enpassant_to_info(enpassant: u64) -> (res: u64)
    ensures
        res == u64_trailing_zeros(enpassant) as u64,
{
    enpassant.trailing_zeros() as u64
}

/// The en passant square read from the information word, as a bitboard (empty for none).
pub fn info_to_enpassant(info: u64) -> (res: u64)
    ensures
        res == enpassant_of(info),
{
    let shift = info & ENPASSANT_FLAG;

    if shift >= 64 {
        EMPTY
    } else {
        1u64 << shift
    }
}

pub const BOARD_ROWS_ERROR: &'static str = "Error: Board must have 8 rows";
pub const BOARD_PIECE_ERROR: &'static str =
    "Error: Piece must be one of 'P', 'p', 'K', 'k', 'Q', 'q', 'B', 'b', 'N', 'n', 'R', 'r'";
pub const BOARD_ROW_LENGTH_ERROR: &'static str = "Error: Each row of the board must have 8 entries";

pub open spec fn is_digit(c: char) -> bool {
    '0' <= c <= '9'
}

pub open spec fn digit_val(c: char) -> int {
    c as int - '0' as int
}

/// `s` cut at every `sep`: the pieces in order, empty ones included (one piece for an empty `s`).
pub open spec fn split_on(s: Seq<char>, sep: char) -> Seq<Seq<char>>
    decreases s.len(),
{
    if s.len() == 0 {
        seq![Seq::empty()]
    } else {
        let rest = split_on(s.drop_last(), sep);
        if s.last() == sep {
            rest.push(Seq::empty())
        } else {
            rest.update(rest.len() - 1, rest.last().push(s.last()))
        }
    }
}

/// The cells a FEN row describes, from the a file on: a digit stands for that many empty
/// cells, any other character for one cell with the piece it names.
pub open spec fn row_cells(row: Seq<char>) -> Seq<Option<int>>
    decreases row.len(),
{
    if row.len() == 0 {
        Seq::empty()
    } else {
        let cells = row_cells(row.drop_last());
        if is_digit(row.last()) {
            cells + Seq::new(digit_val(row.last()) as nat, |i: int| None::<int>)
        } else {
            cells.push(Some(char_piece(row.last()) as int))
        }
    }
}

/// The row holds a character that is neither a digit nor a piece letter.
pub open spec fn row_bad_piece(row: Seq<char>) -> bool {
    exists|i: int| 0 <= i < row.len() && !is_digit(#[trigger] row[i]) && char_piece(row[i])
        == usize::MAX
}

/// The first error among the rows from `i` on, checked row by row.
pub open spec fn check_rows(rows: Seq<Seq<char>>, i: int) -> Result<(), Seq<char>>
    decreases rows.len() - i,
{
    if i < 0 || i >= rows.len() {
        Ok(())
    } else if row_bad_piece(rows[i]) {
        Err(BOARD_PIECE_ERROR@)
    } else if row_cells(rows[i]).len() != 8 {
        Err(BOARD_ROW_LENGTH_ERROR@)
    } else {
        check_rows(rows, i + 1)
    }
}

/// A piece letter of the row, reached before any character that is neither a digit nor a
/// piece letter, comes when `8 * rank` plus the cells before it has passed the last square.
pub open spec fn row_overflows(row: Seq<char>, rank: int) -> bool {
    exists|j: int|
        0 <= j < row.len() && !is_digit(#[trigger] row[j]) && char_piece(row[j]) != usize::MAX
            && rank * 8 + row_cells(row.take(j)).len() >= 64 && (forall|i: int|
            0 <= i < j ==> !(!is_digit(#[trigger] row[i]) && char_piece(row[i]) == usize::MAX))
}

/// Checking the rows from `i` on, in order, meets a row that overflows before it meets an
/// error.
pub open spec fn rows_overflow(rows: Seq<Seq<char>>, i: int) -> bool
    decreases rows.len() - i,
{
    if i < 0 || i >= rows.len() {
        false
    } else if row_overflows(rows[i], i) {
        true
    } else if row_bad_piece(rows[i]) || row_cells(rows[i]).len() != 8 {
        false
    } else {
        rows_overflow(rows, i + 1)
    }
}

/// The board field has eight rows and placing its pieces reaches a square past the last one.
pub open spec fn board_overflows(b: Seq<char>) -> bool {
    split_on(b, '/').len() == 8 && rows_overflow(split_on(b, '/'), 0)
}

/// The piece on square `s` of the board the rows describe (the first row is the eighth rank,
/// its first cell a8 = square 63).
pub open spec fn board_cell(rows: Seq<Seq<char>>, s: int) -> Option<int> {
    let k = 63 - s;
    row_cells(rows[k / 8])[k % 8]
}

/// The bitboard of piece `p` on the board the rows describe.
pub open spec fn board_bb(rows: Seq<Seq<char>>, p: int) -> u64 {
    bb_of(|s: int| board_cell(rows, s) == Some(p))
}

/// The position array of the board the rows describe; no game information.
pub open spec fn board_array(rows: Seq<Seq<char>>) -> Seq<u64> {
    let pieces = Seq::new(12, |p: int| board_bb(rows, p));
    pieces + seq![white_of(pieces), black_of(pieces), 0u64]
}

/// What parsing the board field of a FEN gives: the position array, or the error message.
pub open spec fn parse_board(b: Seq<char>) -> Result<Seq<u64>, Seq<char>> {
    let rows = split_on(b, '/');
    if rows.len() != 8 {
        Err(BOARD_ROWS_ERROR@)
    } else {
        match check_rows(rows, 0) {
            Err(e) => Err(e),
            Ok(_) => Ok(board_array(rows)),
        }
    }
}

/// Splits `s` at every `sep`.
pub fn split_chars(s: &Vec<char>, sep: char) -> (res: Vec<Vec<char>>)
    ensures
        res@.len() == split_on(s@, sep).len(),
        forall|i: int| 0 <= i < res@.len() ==> #[trigger] res@[i]@ == split_on(s@, sep)[i],
{
    let mut res: Vec<Vec<char>> = Vec::new();
    res.push(Vec::new());
    for k in 0..s.len()
        invariant
            res@.len() == split_on(s@.take(k as int), sep).len(),
            res@.len() >= 1,
            forall|i: int|
                0 <= i < res@.len() ==> #[trigger] res@[i]@ == split_on(s@.take(k as int), sep)[i],
    {
        let c = s[k];
        let ghost prev = s@.take(k as int);
        assert(s@.take(k + 1).drop_last() =~= prev);
        if c == sep {
            res.push(Vec::new());
        } else {
            let last = res.len() - 1;
            let mut cur = res.pop().unwrap();
            cur.push(c);
            res.push(cur);
            proof {
                let sp = split_on(prev, sep);
                assert forall|i: int| 0 <= i < res@.len() implies #[trigger] res@[i]@ == split_on(
                    s@.take(k + 1),
                    sep,
                )[i] by {
                    if i < last as int {
                        assert(split_on(s@.take(k + 1), sep)[i] == sp[i]);
                    }
                }
            }
        }
    }
    assert(s@.take(s@.len() as int) =~= s@);
    res
}

/// Cells of a row prefix, capped at 64 entries.
spec fn capped_len(row: Seq<char>) -> int {
    let n = row_cells(row).len() as int;
    if n > 64 {
        64
    } else {
        n
    }
}

/// Piece `p` is on square `s` according to the rows before `r` and the first `j` characters of
/// row `r`.
pub open spec fn placed_so_far(rows: Seq<Seq<char>>, r: int, j: int, p: int, s: int) -> bool {
    let k = 63 - s;
    let rr = k / 8;
    let ff = k % 8;
    let cur = row_cells(rows[r].take(j));
    (rr < r && row_cells(rows[rr])[ff] == Some(p)) || (rr == r && ff < cur.len() && cur[ff] == Some(
        p,
    ))
}

proof fn lemma_row_cells_step(row: Seq<char>, j: int)
    requires
        0 <= j < row.len(),
    ensures
        row_cells(row.take(j + 1)) == if is_digit(row[j]) {
            row_cells(row.take(j)) + Seq::new(digit_val(row[j]) as nat, |i: int| None::<int>)
        } else {
            row_cells(row.take(j)).push(Some(char_piece(row[j]) as int))
        },
{
    assert(row.take(j + 1).drop_last() =~= row.take(j));
}

pub(crate) fn char_digit(c: char) -> (res: Option<usize>)
    ensures
        res is Some <==> is_digit(c),
        res matches Some(d) ==> d == digit_val(c) && d <= 9,
{
    if '0' <= c && c <= '9' {
        Some((c as u32 - '0' as u32) as usize)
    } else {
        None
    }
}

/// Converts FEN notation into piece position data, given the characters of the board field.
pub fn fen_notation_to_board_chars(board: &Vec<char>) -> (res: Result<FenArray, String>)
    requires
        !board_overflows(board@),
    ensures
        res matches Ok(a) ==> parse_board(board@) == Ok::<Seq<u64>, Seq<char>>(a@),
        res matches Err(e) ==> parse_board(board@) == Err::<Seq<u64>, Seq<char>>(e@),
{
    let mut pieces: FenArray = [0;15];

    let rows = split_chars(board, '/');
    let ghost srows = split_on(board@, '/');
    if rows.len() != 8 {
        return Err(BOARD_ROWS_ERROR.to_string());
    }
    assert(check_rows(srows, 0) == check_rows(srows, 0));
    let mut rank: usize = 0;
    while rank < 8
        invariant
            rows@.len() == 8,
            srows == split_on(board@, '/'),
            srows.len() == 8,
            forall|i: int| 0 <= i < 8 ==> #[trigger] rows@[i]@ == srows[i],
            0 <= rank <= 8,
            check_rows(srows, 0) == check_rows(srows, rank as int),
            forall|i: int| 0 <= i < rank ==> row_cells(#[trigger] srows[i]).len() == 8,
            pieces@[14] == 0,
            forall|p: int, s: int|
                0 <= p < 12 ==> (#[trigger] bit(pieces@[p], s) <==> 0 <= s < 64 && placed_so_far(
                    srows,
                    rank as int,
                    0,
                    p,
                    s,
                )),
        decreases 8 - rank,
    {
        let row = &rows[rank];
        let ghost srow = srows[rank as int];
        let mut file: usize = 0;
        for j in 0..row.len()
            invariant
                rows@.len() == 8,
                srows == split_on(board@, '/'),
                srows.len() == 8,
                forall|i: int| 0 <= i < 8 ==> #[trigger] rows@[i]@ == srows[i],
                0 <= rank < 8,
                srow == srows[rank as int],
                row@ == srow,
                check_rows(srows, 0) == check_rows(srows, rank as int),
                forall|i: int| 0 <= i < rank ==> row_cells(#[trigger] srows[i]).len() == 8,
                file == capped_len(srow.take(j as int)),
                forall|i: int| 0 <= i < j ==> !(!is_digit(#[trigger] srow[i]) && char_piece(srow[i]) == usize::MAX),
                pieces@[14] == 0,
                forall|p: int, s: int|
                    0 <= p < 12 ==> (#[trigger] bit(pieces@[p], s) <==> 0 <= s < 64
                        && placed_so_far(srows, rank as int, j as int, p, s)),
        {
            let piece = row[j];
            proof {
                lemma_row_cells_step(srow, j as int);
            }
            match char_digit(piece) {
                Some(d) => {
                    file = if file + d > 64 {
                        64
                    } else {
                        file + d
                    };
                    assert forall|p: int, s: int|
                        0 <= p < 12 implies (#[trigger] bit(pieces@[p], s) <==> 0 <= s < 64
                        && placed_so_far(srows, rank as int, j + 1, p, s)) by {
                        assert(bit(pieces@[p], s) <==> 0 <= s < 64 && placed_so_far(
                            srows,
                            rank as int,
                            j as int,
                            p,
                            s,
                        ));
                    }
                },
                None => {
                    let index = char_to_piece(piece);
                    if index == usize::MAX {
                        proof {
                            assert(row_bad_piece(srow));
                            assert(check_rows(srows, rank as int) == Err::<(), Seq<char>>(
                                BOARD_PIECE_ERROR@,
                            ));
                        }
                        return Err(BOARD_PIECE_ERROR.to_string());
                    }
                    if file < 8 {
                        let pos: u64 = FIRST >> (rank * 8 + file);
                        let ghost sq: int = 63 - (rank * 8 + file);
                        assert(pos == square_bb(sq)) by {
                            let sh = (rank * 8 + file) as u64;
                            assert(0x8000_0000_0000_0000u64 >> sh == 1u64 << (63 - sh) as u64)
                                by (bit_vector)
                                requires
                                    sh < 64,
                            ;
                        }
                        let ghost old_pieces = pieces@;
                        pieces[index] = pieces[index] | pos;
                        assert forall|p: int, s: int|
                            0 <= p < 12 implies (#[trigger] bit(pieces@[p], s) <==> 0 <= s < 64
                            && placed_so_far(srows, rank as int, j + 1, p, s)) by {
                            assert(bit(old_pieces[p], s) <==> 0 <= s < 64 && placed_so_far(
                                srows,
                                rank as int,
                                j as int,
                                p,
                                s,
                            ));
                        }
                    } else {
                        assert forall|p: int, s: int|
                            0 <= p < 12 implies (#[trigger] bit(pieces@[p], s) <==> 0 <= s < 64
                            && placed_so_far(srows, rank as int, j + 1, p, s)) by {
                            assert(bit(pieces@[p], s) <==> 0 <= s < 64 && placed_so_far(
                                srows,
                                rank as int,
                                j as int,
                                p,
                                s,
                            ));
                        }
                    }
                    file = if file + 1 > 64 {
                        64
                    } else {
                        file + 1
                    };
                },
            }
        }
        proof {
            assert(srow.take(row@.len() as int) =~= srow);
            assert(!row_bad_piece(srow));
        }
        if file != 8 {
            proof {
                assert(check_rows(srows, rank as int) == Err::<(), Seq<char>>(
                    BOARD_ROW_LENGTH_ERROR@,
                ));
            }
            return Err(BOARD_ROW_LENGTH_ERROR.to_string());
        }
        assert(check_rows(srows, rank as int) == check_rows(srows, rank + 1));
        rank += 1;
        assert forall|p: int, s: int|
            0 <= p < 12 implies (#[trigger] bit(pieces@[p], s) <==> 0 <= s < 64 && placed_so_far(
            srows,
            rank as int,
            0,
            p,
            s,
        )) by {
            assert(bit(pieces@[p], s) <==> 0 <= s < 64 && placed_so_far(
                srows,
                rank - 1,
                srow.len() as int,
                p,
                s,
            ));
            if rank < 8 {
                assert(srows[rank as int].take(0) =~= Seq::<char>::empty());
            }
        }
    }

    pieces[WHITE] = get_white_pieces(&pieces);
    pieces[BLACK] = get_black_pieces(&pieces);
    proof {
        let a = board_array(srows);
        assert forall|p: int| 0 <= p < 12 implies pieces@[p] == board_bb(srows, p) by {
            assert forall|s: int| #[trigger] bit(pieces@[p], s) <==> 0 <= s < 64 && board_cell(
                srows,
                s,
            ) == Some(p) by {
                assert(bit(pieces@[p], s) <==> 0 <= s < 64 && placed_so_far(srows, 8, 0, p, s));
            }
            lemma_bb_of(pieces@[p], |s: int| board_cell(srows, s) == Some(p));
        }
        assert(pieces@ =~= a);
    }
    Ok(pieces)
}

/// The highest piece index below `n` whose bitboard holds square `s`.
pub open spec fn top_piece(a: Seq<u64>, s: int, n: int) -> Option<int>
    decreases n,
{
    if n <= 0 {
        None
    } else if bit(a[n - 1], s) {
        Some(n - 1)
    } else {
        top_piece(a, s, n - 1)
    }
}

/// The FEN text of row `rank` (0 is the eighth rank) from file `file` on (0 is the a file),
/// with `empty` empty cells pending.
pub open spec fn row_text_from(a: Seq<u64>, rank: int, file: int, empty: int) -> Seq<char>
    decreases 8 - file,
{
    if file >= 8 {
        if empty > 0 {
            seq![digit_char(empty)]
        } else {
            Seq::empty()
        }
    } else {
        match top_piece(a, 63 - (rank * 8 + file), 12) {
            Some(p) => (if empty > 0 {
                seq![digit_char(empty)]
            } else {
                Seq::empty()
            }) + seq![piece_char(p)] + row_text_from(a, rank, file + 1, 0),
            None => row_text_from(a, rank, file + 1, empty + 1),
        }
    }
}

/// The separator after row `rank`.
pub open spec fn row_sep(rank: int) -> Seq<char> {
    if rank == 7 {
        Seq::empty()
    } else {
        seq!['/']
    }
}

/// The FEN text of the rows from `rank` on.
pub open spec fn board_text_from(a: Seq<u64>, rank: int) -> Seq<char>
    decreases 8 - rank,
{
    if rank >= 8 {
        Seq::empty()
    } else {
        row_text_from(a, rank, 0, 0) + row_sep(rank) + board_text_from(a, rank + 1)
    }
}

/// The board field of the FEN of a position.
#[verifier::opaque]
pub open spec fn board_text(a: Seq<u64>) -> Seq<char> {
    board_text_from(a, 0)
}

/// Converts piece position data into FEN notation
pub fn board_to_fen_notation(array: FenArray) -> (res: String)
    ensures
        res@ == board_text(array@),
{
    let ghost a = array@;
    let mut result = String::new();
    reveal(board_text);

    for rank in 0usize..8
        invariant
            a == array@,
            result@ + board_text_from(a, rank as int) == board_text(a),
    {
        let mut empty: usize = 0;

        for file in 0usize..8
            invariant
                a == array@,
                0 <= rank < 8,
                empty <= file,
                result@ + row_text_from(a, rank as int, file as int, empty as int) + row_sep(
                    rank as int,
                ) + board_text_from(a, rank + 1) == board_text(a),
        {
            let pos = FIRST >> (rank * 8 + file);
            let ghost sq: int = 63 - (rank * 8 + file);
            assert(pos == square_bb(sq)) by {
                let sh = (rank * 8 + file) as u64;
                assert(0x8000_0000_0000_0000u64 >> sh == 1u64 << (63 - sh) as u64) by (bit_vector)
                    requires
                        sh < 64,
                ;
            }

            // We find the index for which the array is not empty at pos, then map this to its char
            let mut piece_index: Option<usize> = None;
            for i in 0..PIECE_TYPES
                invariant
                    a == array@,
                    pos == square_bb(sq),
                    0 <= sq < 64,
                    piece_index matches Some(p) ==> top_piece(a, sq, i as int) == Some(p as int),
                    piece_index is None ==> top_piece(a, sq, i as int) is None,
            {
                proof {
                    crate::bitboard::lemma_test_square(array[i as int], sq);
                }
                if array[i] & pos != 0 {
                    piece_index = Some(i);
                }
            }

            // If we find a piece, we write the number of empty spots before, then the piece char,
            // if we find no piece, we increase the empty spot counter
            let ghost before = result@;
            let ghost old_empty = empty;
            if let Some(p) = piece_index {
                if empty > 0 {
                    push_char(&mut result, ((empty as u8) + 48) as char);
                    empty = 0;
                }
                push_char(&mut result, piece_to_char(p));
                assert(result@ + row_text_from(a, rank as int, file + 1, 0) =~= before
                    + row_text_from(a, rank as int, file as int, old_empty as int));
            } else {
                empty += 1;
            }
        }

        let ghost before = result@;
        if empty > 0 {
            push_char(&mut result, ((empty as u8) + 48) as char);
        }
        assert(result@ =~= before + row_text_from(a, rank as int, 8, empty as int));

        if rank != 7 {
            push_char(&mut result, '/');
        }
        assert(result@ + board_text_from(a, rank + 1) =~= before + row_text_from(
            a,
            rank as int,
            8,
            empty as int,
        ) + row_sep(rank as int) + board_text_from(a, rank + 1));
    }

    result
}

/// The turn field: `w` when white is to move.
pub open spec fn turn_text(info: u64) -> Seq<char> {
    if info & TURN_FLAG == 0 {
        seq!['b']
    } else {
        seq!['w']
    }
}

/// The castling field: the letters of the rights held, `-` for none.
pub open spec fn castle_text(info: u64) -> Seq<char> {
    let c = (if info & WHITE_KINGSIDE_RIGHTS != 0 {
        seq!['K']
    } else {
        Seq::empty()
    }) + (if info & WHITE_QUEENSIDE_RIGHTS != 0 {
        seq!['Q']
    } else {
        Seq::empty()
    }) + (if info & BLACK_KINGSIDE_RIGHTS != 0 {
        seq!['k']
    } else {
        Seq::empty()
    }) + (if info & BLACK_QUEENSIDE_RIGHTS != 0 {
        seq!['q']
    } else {
        Seq::empty()
    });
    if c.len() == 0 {
        seq!['-']
    } else {
        c
    }
}

/// The en passant field: the square stored, `-` when none is.
pub open spec fn ep_text(info: u64) -> Seq<char> {
    let k = info & ENPASSANT_FLAG;
    if k >= 64 {
        seq!['-']
    } else {
        seq![file_char((k % 8) as int), rank_char((k / 8) as int)]
    }
}

/// The FEN of a position.
pub open spec fn fen_text(a: Seq<u64>) -> Seq<char> {
    let info = a[INFO as int];
    board_text(a) + seq![' '] + turn_text(info) + seq![' '] + castle_text(info) + seq![' ']
        + ep_text(info) + seq![' '] + decimal(((info & HALFMOVE_FLAG) >> 8) as nat) + seq![' ']
        + decimal(((info & FULLMOVE_FLAG) >> 24) as nat)
}

/// The fields after the board field of a FEN, each preceded by a space.
pub open spec fn info_text(info: u64) -> Seq<char> {
    seq![' '] + turn_text(info) + seq![' '] + castle_text(info) + seq![' '] + ep_text(info) + seq![
        ' ',
    ] + decimal(((info & HALFMOVE_FLAG) >> 8) as nat) + seq![' '] + decimal(
        ((info & FULLMOVE_FLAG) >> 24) as nat,
    )
}

/// The fields after the board field of a FEN, each preceded by a space.
pub fn info_string(info: u64) -> (res: String)
    ensures
        res@ == info_text(info),
{
    let mut result = String::new();
    let ghost hm = decimal(((info & HALFMOVE_FLAG) >> 8) as nat);
    let ghost fm = decimal(((info & FULLMOVE_FLAG) >> 24) as nat);
    let ghost s1 = seq![' '];
    push_char(&mut result, ' ');
    assert(result@ =~= s1);

    let ghost s2 = s1 + turn_text(info);
    if info & TURN_FLAG == 0 {
        push_char(&mut result, 'b');
    } else {
        push_char(&mut result, 'w');
    }
    assert(result@ =~= s2);
    let ghost s3 = s2 + seq![' '];
    push_char(&mut result, ' ');
    assert(result@ =~= s3);

    let castle = castle_string(info);
    push_chars(&mut result, &castle);
    let ghost s4 = s3 + castle_text(info);
    assert(result@ =~= s4);
    let ghost s5 = s4 + seq![' '];
    push_char(&mut result, ' ');
    assert(result@ =~= s5);

    let ghost s6 = s5 + ep_text(info);
    if info & ENPASSANT_FLAG >= 64 {
        push_char(&mut result, '-');
    } else {
        let k = info & ENPASSANT_FLAG;
        let lan = bitboard_to_lan(info_to_enpassant(info));
        proof {
            crate::bitboard::lemma_trailing_zeros_single(k as int);
        }
        push_chars(&mut result, &str_to_chars(lan.as_str()));
    }
    assert(result@ =~= s6);
    let ghost s7 = s6 + seq![' '];
    push_char(&mut result, ' ');
    assert(result@ =~= s7);
    push_decimal(&mut result, info_to_halfmove(info));
    let ghost s8 = s7 + hm;
    assert(result@ =~= s8);
    let ghost s9 = s8 + seq![' '];
    push_char(&mut result, ' ');
    assert(result@ =~= s9);
    push_decimal(&mut result, info_to_fullmove(info));
    assert(result@ =~= s9 + fm);
    assert(s9 + fm =~= info_text(info));
    result
}

/// Converts fen array into FEN notation
#[verifier::spinoff_prover]
#[verifier::rlimit(30)]
pub fn fen_to_string(fen: FenArray) -> (res: String)
    ensures
        res@ == fen_text(fen@),
{
    let mut result = board_to_fen_notation(fen);
    let ghost board = result@;
    let info = info_string(fen[INFO]);
    push_chars(&mut result, &str_to_chars(info.as_str()));
    assert(result@ == board + info_text(fen@[INFO as int]));
    assert(board + info_text(fen@[INFO as int]) =~= fen_text(fen@));
    result
}

fn castle_string(info: u64) -> (res: Vec<char>)
    ensures
        res@ == castle_text(info),
{
    let mut c: Vec<char> = Vec::new();
    if info & WHITE_KINGSIDE_RIGHTS != 0 {
        c.push('K');
    }
    if info & WHITE_QUEENSIDE_RIGHTS != 0 {
        c.push('Q');
    }
    if info & BLACK_KINGSIDE_RIGHTS != 0 {
        c.push('k');
    }
    if info & BLACK_QUEENSIDE_RIGHTS != 0 {
        c.push('q');
    }
    if c.len() == 0 {
        c.push('-');
    }
    assert(c@ =~= castle_text(info));
    c
}

/// Converts FEN notation into piece position data
pub fn fen_notation_to_board(board: &str) -> (res: Result<FenArray, String>)
    requires
        !board_overflows(board@),
    ensures
        res matches Ok(a) ==> parse_board(board@) == Ok::<Seq<u64>, Seq<char>>(a@),
        res matches Err(e) ==> parse_board(board@) == Err::<Seq<u64>, Seq<char>>(e@),
{
    fen_notation_to_board_chars(&str_to_chars(board))
}

pub const FIELDS_ERROR: &'static str = "Error: FEN does not have 6 fields";
pub const TURN_ERROR: &'static str = "Error: Turn must be 'w' or 'b'";
pub const CASTLE_ERROR: &'static str = "Error: Castle rights must be '-', or a subset of 'KQkq'";
pub const ENPASSANT_ERROR: &'static str = "Error: Enpassant must be '-' or a square on the board";
pub const HALFMOVE_NUMBER_ERROR: &'static str = "Error: Halfmove must be a number";
pub const HALFMOVE_RANGE_ERROR: &'static str = "Error: Halfmove must be less than 65535";
pub const FULLMOVE_NUMBER_ERROR: &'static str = "Error: Fullmove must be a number";
pub const FULLMOVE_RANGE_ERROR: &'static str = "Error: Fullmove must be less than 65535";

/// Unicode white space (the characters `char::is_whitespace` accepts).
pub open spec fn is_ws(c: char) -> bool {
    ('\t' <= c <= '\r') || c == ' ' || c == '\u{85}' || c == '\u{a0}' || c == '\u{1680}' || (
    '\u{2000}' <= c <= '\u{200a}') || c == '\u{2028}' || c == '\u{2029}' || c == '\u{202f}' || c
        == '\u{205f}' || c == '\u{3000}'
}

fn char_is_ws(c: char) -> (res: bool)
    ensures
        res == is_ws(c),
{
    ('\t' <= c && c <= '\r') || c == ' ' || c == '\u{85}' || c == '\u{a0}' || c == '\u{1680}' || (
    '\u{2000}' <= c && c <= '\u{200a}') || c == '\u{2028}' || c == '\u{2029}' || c == '\u{202f}'
        || c == '\u{205f}' || c == '\u{3000}'
}

/// The maximal runs of non-white-space characters of `s`, in order.
pub open spec fn ws_fields(s: Seq<char>) -> Seq<Seq<char>>
    decreases s.len(),
{
    if s.len() == 0 {
        Seq::empty()
    } else {
        let f = ws_fields(s.drop_last());
        let c = s.last();
        if is_ws(c) {
            f
        } else if s.len() >= 2 && !is_ws(s[s.len() - 2]) {
            f.update(f.len() - 1, f.last().push(c))
        } else {
            f.push(seq![c])
        }
    }
}

/// Splits `s` into its white-space separated fields.
pub(crate) fn split_whitespace_chars(s: &Vec<char>) -> (res: Vec<Vec<char>>)
    ensures
        res@.len() == ws_fields(s@).len(),
        forall|i: int| 0 <= i < res@.len() ==> #[trigger] res@[i]@ == ws_fields(s@)[i],
{
    let mut res: Vec<Vec<char>> = Vec::new();
    let mut prev_ws = true;
    for k in 0..s.len()
        invariant
            res@.len() == ws_fields(s@.take(k as int)).len(),
            forall|i: int|
                0 <= i < res@.len() ==> #[trigger] res@[i]@ == ws_fields(s@.take(k as int))[i],
            k == 0 ==> prev_ws,
            k > 0 ==> prev_ws == is_ws(s@[k - 1]),
            k > 0 && !prev_ws ==> res@.len() >= 1,
    {
        let c = s[k];
        let ghost prev = s@.take(k as int);
        assert(s@.take(k + 1).drop_last() =~= prev);
        assert(s@.take(k + 1).last() == c);
        if k > 0 {
            assert(s@.take(k + 1)[k - 1] == s@[k - 1]);
        }
        if char_is_ws(c) {
            prev_ws = true;
        } else if !prev_ws {
            let last = res.len() - 1;
            let mut cur = res.pop().unwrap();
            cur.push(c);
            res.push(cur);
            prev_ws = false;
            proof {
                let f = ws_fields(prev);
                assert forall|i: int| 0 <= i < res@.len() implies #[trigger] res@[i]@ == ws_fields(
                    s@.take(k + 1),
                )[i] by {
                    if i < last as int {
                        assert(ws_fields(s@.take(k + 1))[i] == f[i]);
                    }
                }
            }
        } else {
            let mut cur: Vec<char> = Vec::new();
            cur.push(c);
            res.push(cur);
            prev_ws = false;
            proof {
                assert(cur@ =~= seq![c]);
                let f = ws_fields(prev);
                assert forall|i: int| 0 <= i < res@.len() implies #[trigger] res@[i]@ == ws_fields(
                    s@.take(k + 1),
                )[i] by {
                    if i < res@.len() - 1 {
                        assert(ws_fields(s@.take(k + 1))[i] == f[i]);
                    }
                }
            }
        }
    }
    assert(s@.take(s@.len() as int) =~= s@);
    res
}

/// The order of a castling letter in `KQkq`; -1 for any other character.
pub open spec fn castle_order(c: char) -> int {
    if c == 'K' {
        0
    } else if c == 'Q' {
        1
    } else if c == 'k' {
        2
    } else if c == 'q' {
        3
    } else {
        -1
    }
}

/// A castling field: `-`, or a nonempty selection of `KQkq` written in that order.
pub open spec fn castle_ok(f: Seq<char>) -> bool {
    f == seq!['-'] || (1 <= f.len() <= 4 && (forall|i: int|
        0 <= i < f.len() ==> castle_order(#[trigger] f[i]) >= 0) && (forall|i: int, j: int|
        0 <= i < j < f.len() ==> castle_order(#[trigger] f[i]) < castle_order(#[trigger] f[j])))
}

/// The castling rights a castling field names.
pub open spec fn castle_bits(f: Seq<char>) -> u64 {
    (if f.contains('K') {
        WHITE_KINGSIDE_RIGHTS
    } else {
        0
    }) | (if f.contains('Q') {
        WHITE_QUEENSIDE_RIGHTS
    } else {
        0
    }) | (if f.contains('k') {
        BLACK_KINGSIDE_RIGHTS
    } else {
        0
    }) | (if f.contains('q') {
        BLACK_QUEENSIDE_RIGHTS
    } else {
        0
    })
}

pub open spec fn all_digits(f: Seq<char>) -> bool {
    forall|i: int| 0 <= i < f.len() ==> is_digit(#[trigger] f[i])
}

/// The number a string of digits denotes.
pub open spec fn digits_value(f: Seq<char>) -> nat
    decreases f.len(),
{
    if f.len() == 0 {
        0
    } else {
        digits_value(f.drop_last()) * 10 + digit_val(f.last()) as nat
    }
}

/// The en passant field is one character that UTF-8 writes in two bytes.
pub open spec fn two_byte_char(f: Seq<char>) -> bool {
    f.len() == 1 && '\u{80}' <= f[0] <= '\u{7ff}'
}

/// The fields of the FEN reach a step that cannot complete: a board whose pieces run past the
/// last square, a two-byte en passant field, or a counter whose digits exceed `u64`.
pub open spec fn fen_parse_stops(s: Seq<char>) -> bool {
    let fs = ws_fields(s);
    fs.len() == 6 && (board_overflows(fs[0]) || (parse_board(fs[0]) is Ok && (fs[1] == seq!['w']
        || fs[1] == seq!['b']) && castle_ok(fs[2]) && (two_byte_char(fs[3]) || ((fs[3] == seq![
        '-',
    ] || valid_lan_chars(fs[3])) && all_digits(fs[4]) && (digits_value(fs[4]) > u64::MAX || (
    digits_value(fs[4]) <= 65535 && all_digits(fs[5]) && digits_value(fs[5]) > u64::MAX))))))
}

/// What parsing a FEN gives: the position array, or the message of the first error.
pub open spec fn parse_fen(s: Seq<char>) -> Result<Seq<u64>, Seq<char>> {
    let fs = ws_fields(s);
    if fs.len() != 6 {
        Err(FIELDS_ERROR@)
    } else {
        match parse_board(fs[0]) {
            Err(e) => Err(e),
            Ok(b) => if fs[1] != seq!['w'] && fs[1] != seq!['b'] {
                Err(TURN_ERROR@)
            } else if !castle_ok(fs[2]) {
                Err(CASTLE_ERROR@)
            } else if fs[3] != seq!['-'] && !valid_lan_chars(fs[3]) {
                Err(ENPASSANT_ERROR@)
            } else if !all_digits(fs[4]) {
                Err(HALFMOVE_NUMBER_ERROR@)
            } else if digits_value(fs[4]) > 65535 {
                Err(HALFMOVE_RANGE_ERROR@)
            } else if !all_digits(fs[5]) {
                Err(FULLMOVE_NUMBER_ERROR@)
            } else if digits_value(fs[5]) > 65535 {
                Err(FULLMOVE_RANGE_ERROR@)
            } else {
                let turn: u64 = if fs[1] == seq!['w'] {
                    TURN_FLAG
                } else {
                    0
                };
                let ep: u64 = if fs[3] == seq!['-'] {
                    NO_ENPASSANT_FLAG
                } else {
                    lan_square(fs[3]) as u64
                };
                let info = turn | castle_bits(fs[2]) | ep | ((digits_value(fs[4]) as u64) << 8u64)
                    | ((digits_value(fs[5]) as u64) << 24u64);
                Ok(b.update(INFO as int, info))
            },
        }
    }
}

fn chars_are(v: &Vec<char>, c: char) -> (res: bool)
    ensures
        res == (v@ == seq![c]),
{
    if v.len() == 1 && v[0] == c {
        assert(v@ =~= seq![c]);
        true
    } else {
        proof {
            if v@ == seq![c] {
                assert(v@[0] == c);
            }
        }
        false
    }
}

fn castle_order_exec(c: char) -> (res: i32)
    ensures
        res == castle_order(c),
{
    if c == 'K' {
        0
    } else if c == 'Q' {
        1
    } else if c == 'k' {
        2
    } else if c == 'q' {
        3
    } else {
        -1
    }
}

/// The castling rights of a castling field, if it is one.
fn parse_castle(f: &Vec<char>) -> (res: Option<u64>)
    ensures
        res is Some <==> castle_ok(f@),
        res matches Some(b) ==> b == castle_bits(f@),
{
    if chars_are(f, '-') {
        assert(!f@.contains('K') && !f@.contains('Q') && !f@.contains('k') && !f@.contains('q'))
            by {
            assert(f@[0] == '-');
        }
        assert(0u64 | 0u64 | 0u64 | 0u64 == 0u64) by (bit_vector);
        return Some(0);
    }
    if f.len() < 1 || f.len() > 4 {
        return None;
    }
    let mut prev: i32 = -1;
    for i in 0..f.len()
        invariant
            1 <= f@.len() <= 4,
            f@ != seq!['-'],
            -1 <= prev <= 3,
            i > 0 ==> prev == castle_order(f@[i - 1]),
            i == 0 ==> prev == -1,
            forall|k: int| 0 <= k < i ==> castle_order(#[trigger] f@[k]) >= 0,
            forall|k: int, l: int|
                0 <= k < l < i ==> castle_order(#[trigger] f@[k]) < castle_order(#[trigger] f@[l]),
            forall|k: int| 0 <= k < i ==> castle_order(#[trigger] f@[k]) <= prev,
    {
        let o = castle_order_exec(f[i]);
        if o <= prev {
            assert(!castle_ok(f@)) by {
                if i > 0 {
                    assert(castle_order(f@[i - 1]) >= castle_order(f@[i as int]));
                }
            }
            return None;
        }
        prev = o;
    }
    let k = contains_char(f, 'K');
    let q = contains_char(f, 'Q');
    let bk = contains_char(f, 'k');
    let bq = contains_char(f, 'q');
    let bits: u64 = (if k {
        WHITE_KINGSIDE_RIGHTS
    } else {
        0
    }) | (if q {
        WHITE_QUEENSIDE_RIGHTS
    } else {
        0
    }) | (if bk {
        BLACK_KINGSIDE_RIGHTS
    } else {
        0
    }) | (if bq {
        BLACK_QUEENSIDE_RIGHTS
    } else {
        0
    });
    Some(bits)
}

fn contains_char(f: &Vec<char>, c: char) -> (res: bool)
    ensures
        res == f@.contains(c),
{
    for i in 0..f.len()
        invariant
            forall|k: int| 0 <= k < i ==> f@[k] != c,
    {
        if f[i] == c {
            return true;
        }
    }
    false
}

/// The value of a digits field, capped at 65536, if every character is a digit.
fn parse_counter(f: &Vec<char>) -> (res: Option<u64>)
    ensures
        res is Some <==> all_digits(f@),
        res matches Some(v) ==> v == (if digits_value(f@) > 65535 {
            65536
        } else {
            digits_value(f@)
        }),
{
    let mut v: u64 = 0;
    for i in 0..f.len()
        invariant
            forall|k: int| 0 <= k < i ==> is_digit(#[trigger] f@[k]),
            v == (if digits_value(f@.take(i as int)) > 65535 {
                65536
            } else {
                digits_value(f@.take(i as int))
            }),
    {
        assert(f@.take(i + 1).drop_last() =~= f@.take(i as int));
        match char_digit(f[i]) {
            None => {
                return None;
            },
            Some(d) => {
                let ghost pv = digits_value(f@.take(i as int));
                assert(digits_value(f@.take(i + 1)) == pv * 10 + d);
                if v > 65535 {
                    assert(pv * 10 + d > 65535) by (nonlinear_arith)
                        requires
                            pv > 65535,
                            d >= 0,
                    ;
                } else {
                    v = v * 10 + d as u64;
                    if v > 65535 {
                        v = 65536;
                    }
                }
            },
        }
    }
    assert(f@.take(f@.len() as int) =~= f@);
    Some(v)
}

/// Converts FEN notation into fen array, given the characters of the FEN.
pub fn string_to_fen_chars(s: &Vec<char>) -> (res: Result<FenArray, String>)
    requires
        !fen_parse_stops(s@),
    ensures
        res matches Ok(a) ==> parse_fen(s@) == Ok::<Seq<u64>, Seq<char>>(a@),
        res matches Err(e) ==> parse_fen(s@) == Err::<Seq<u64>, Seq<char>>(e@),
{
    let split = split_whitespace_chars(s);
    let ghost fs = ws_fields(s@);
    if split.len() != 6 {
        return Err(FIELDS_ERROR.to_string());
    }
    assert(split@[0]@ == fs[0] && split@[1]@ == fs[1] && split@[2]@ == fs[2]
        && split@[3]@ == fs[3] && split@[4]@ == fs[4] && split@[5]@ == fs[5]);

    let mut fen: FenArray = match fen_notation_to_board_chars(&split[0]) {
        Ok(fen_array) => fen_array,
        Err(error) => return Err(error),
    };

    let white = chars_are(&split[1], 'w');
    let black = chars_are(&split[1], 'b');
    if !white && !black {
        return Err(TURN_ERROR.to_string());
    }
    let turn: u64 = if white {
        TURN_FLAG
    } else {
        EMPTY
    };

    let castle: u64 = match parse_castle(&split[2]) {
        Some(bits) => bits,
        None => return Err(CASTLE_ERROR.to_string()),
    };

    let ep_field = &split[3];
    let no_ep = chars_are(ep_field, '-');
    let mut enpassant: u64 = NO_ENPASSANT_FLAG;
    if !no_ep {
        if ep_field.len() != 2 {
            return Err(ENPASSANT_ERROR.to_string());
        }
        let file = lan_to_file(ep_field[0]);
        let rank = lan_to_rank(ep_field[1]);
        if file == usize::MAX || rank == usize::MAX {
            return Err(ENPASSANT_ERROR.to_string());
        }
        enpassant = (rank * 8 + file) as u64;
    }

    let halfmove_int = match parse_counter(&split[4]) {
        Some(v) => v,
        None => return Err(HALFMOVE_NUMBER_ERROR.to_string()),
    };
    if halfmove_int > 65535 {
        return Err(HALFMOVE_RANGE_ERROR.to_string());
    }
    let halfmove = halfmove_to_info(halfmove_int);

    let fullmove_int = match parse_counter(&split[5]) {
        Some(v) => v,
        None => return Err(FULLMOVE_NUMBER_ERROR.to_string()),
    };
    if fullmove_int > 65535 {
        return Err(FULLMOVE_RANGE_ERROR.to_string());
    }
    let fullmove = fullmove_to_info(fullmove_int);

    let info = turn | castle | enpassant | halfmove | fullmove;
    fen[INFO] = info;
    proof {
        if !no_ep {
            assert(valid_lan_chars(fs[3]));
        }
    }
    assert(parse_fen(s@) == Ok::<Seq<u64>, Seq<char>>(fen@));
    Ok(fen)
}

/// Converts FEN notation into fen array
pub fn string_to_fen(fen_str: &str) -> (res: Result<FenArray, String>)
    requires
        !fen_parse_stops(fen_str@),
    ensures
        res matches Ok(a) ==> parse_fen(fen_str@) == Ok::<Seq<u64>, Seq<char>>(a@),
        res matches Err(e) ==> parse_fen(fen_str@) == Err::<Seq<u64>, Seq<char>>(e@),
{
    string_to_fen_chars(&str_to_chars(fen_str))
}

/// The value of the characters of `f` from `start` on, capped at `cap`, if every one of them
/// is a digit.
pub(crate) fn digits_capped(f: &Vec<char>, start: usize, cap: u128) -> (res: Option<u128>)
    requires
        start <= f@.len(),
        1 <= cap <= 0x1_0000_0000_0000_0000,
    ensures
        res is Some <==> all_digits(f@.subrange(start as int, f@.len() as int)),
        res matches Some(v) ==> v == (if digits_value(f@.subrange(start as int, f@.len() as int))
            > cap {
            cap as int
        } else {
            digits_value(f@.subrange(start as int, f@.len() as int)) as int
        }),
{
    let mut v: u128 = 0;
    let mut i = start;
    while i < f.len()
        invariant
            start <= i <= f@.len(),
            1 <= cap <= 0x1_0000_0000_0000_0000,
            forall|k: int| start <= k < i ==> is_digit(#[trigger] f@[k]),
            v == (if digits_value(f@.subrange(start as int, i as int)) > cap {
                cap as int
            } else {
                digits_value(f@.subrange(start as int, i as int)) as int
            }),
        decreases f@.len() - i,
    {
        assert(f@.subrange(start as int, i + 1).drop_last() =~= f@.subrange(start as int, i as int));
        match char_digit(f[i]) {
            None => {
                assert(!all_digits(f@.subrange(start as int, f@.len() as int))) by {
                    assert(f@.subrange(start as int, f@.len() as int)[i - start] == f@[i as int]);
                }
                return None;
            },
            Some(d) => {
                let ghost pv = digits_value(f@.subrange(start as int, i as int));
                assert(digits_value(f@.subrange(start as int, i + 1)) == pv * 10 + d);
                if v >= cap {
                    assert(pv * 10 + d > cap) by (nonlinear_arith)
                        requires
                            pv >= cap,
                            cap >= 1,
                            d >= 0,
                    ;
                } else {
                    v = v * 10 + d as u128;
                    if v > cap {
                        v = cap;
                    }
                }
            },
        }
        i = i + 1;
    }
    assert forall|k: int| 0 <= k < f@.len() - start implies is_digit(
        #[trigger] f@.subrange(start as int, f@.len() as int)[k],
    ) by {
        assert(f@.subrange(start as int, f@.len() as int)[k] == f@[start + k]);
    }
    Some(v)
}

/// Character `i` of the row is neither a digit nor a piece letter.
spec fn bad_at(row: Seq<char>, i: int) -> bool {
    !is_digit(row[i]) && char_piece(row[i]) == usize::MAX
}

/// Character `i` of the row is a piece letter that lands past the last square.
spec fn overflow_at(row: Seq<char>, rank: int, i: int) -> bool {
    !is_digit(row[i]) && char_piece(row[i]) != usize::MAX && rank * 8 + row_cells(row.take(i)).len()
        >= 64
}

proof fn lemma_row_no_overflow(row: Seq<char>, rank: int, j: int)
    requires
        0 <= j <= row.len(),
        forall|i: int| 0 <= i < j ==> !overflow_at(row, rank, i),
        j < row.len() ==> bad_at(row, j),
    ensures
        !row_overflows(row, rank),
{
    if row_overflows(row, rank) {
        let w = choose|w: int|
            0 <= w < row.len() && !is_digit(#[trigger] row[w]) && char_piece(row[w]) != usize::MAX
                && rank * 8 + row_cells(row.take(w)).len() >= 64 && (forall|i: int|
                0 <= i < w ==> !(!is_digit(#[trigger] row[i]) && char_piece(row[i]) == usize::MAX));
        if w < j {
            assert(overflow_at(row, rank, w));
        } else if w > j {
            assert(!(!is_digit(row[j]) && char_piece(row[j]) == usize::MAX));
        }
    }
}

proof fn lemma_row_cells_prefix(row: Seq<char>, j: int, k: int)
    requires
        0 <= j <= k <= row.len(),
    ensures
        row_cells(row.take(j)).len() <= row_cells(row.take(k)).len(),
    decreases k - j,
{
    if j < k {
        lemma_row_cells_prefix(row, j, k - 1);
        lemma_row_cells_step(row, k - 1);
    }
}

/// A row of eight cells on one of the eight ranks stays on the board.
proof fn lemma_row_fits(row: Seq<char>, rank: int)
    requires
        0 <= rank < 8,
        row_cells(row).len() == 8,
    ensures
        !row_overflows(row, rank),
{
    if row_overflows(row, rank) {
        let w = choose|w: int|
            0 <= w < row.len() && !is_digit(#[trigger] row[w]) && char_piece(row[w]) != usize::MAX
                && rank * 8 + row_cells(row.take(w)).len() >= 64 && (forall|i: int|
                0 <= i < w ==> !(!is_digit(#[trigger] row[i]) && char_piece(row[i]) == usize::MAX));
        lemma_row_cells_step(row, w);
        lemma_row_cells_prefix(row, w + 1, row.len() as int);
        assert(row.take(row.len() as int) =~= row);
    }
}

/// Rows that pass the checks never run past the last square.
pub proof fn lemma_checked_rows_fit(rows: Seq<Seq<char>>, i: int)
    requires
        rows.len() == 8,
        0 <= i,
        check_rows(rows, i) is Ok,
    ensures
        !rows_overflow(rows, i),
    decreases rows.len() - i,
{
    if i < 8 {
        lemma_row_fits(rows[i], i);
        lemma_checked_rows_fit(rows, i + 1);
    }
}

/// Scans one row of a board field: whether it overflows, and otherwise whether it is a good
/// row (no bad character, eight cells).
fn scan_row(row: &Vec<char>, rank: usize) -> (res: (bool, bool))
    requires
        rank < 8,
    ensures
        res.0 == row_overflows(row@, rank as int),
        !res.0 ==> (res.1 <==> !row_bad_piece(row@) && row_cells(row@).len() == 8),
{
    let ghost srow = row@;
    let mut file: usize = 0;
    for j in 0..row.len()
        invariant
            rank < 8,
            srow == row@,
            file == capped_len(srow.take(j as int)),
            forall|i: int| 0 <= i < j ==> !bad_at(srow, i),
            forall|i: int| 0 <= i < j ==> !overflow_at(srow, rank as int, i),
    {
        let c = row[j];
        proof {
            lemma_row_cells_step(srow, j as int);
        }
        match char_digit(c) {
            Some(d) => {
                file = if file + d > 64 {
                    64
                } else {
                    file + d
                };
            },
            None => {
                if char_to_piece(c) == usize::MAX {
                    proof {
                        lemma_row_no_overflow(srow, rank as int, j as int);
                    }
                    return (false, false);
                }
                if rank * 8 + file >= 64 {
                    assert(overflow_at(srow, rank as int, j as int));
                    assert forall|i: int| 0 <= i < j implies !(!is_digit(#[trigger] srow[i])
                        && char_piece(srow[i]) == usize::MAX) by {
                        assert(!bad_at(srow, i));
                    }
                    return (true, false);
                }
                file = if file + 1 > 64 {
                    64
                } else {
                    file + 1
                };
            },
        }
    }
    proof {
        assert(srow.take(srow.len() as int) =~= srow);
        lemma_row_no_overflow(srow, rank as int, srow.len() as int);
        if row_bad_piece(srow) {
            let w = choose|w: int|
                0 <= w < srow.len() && !is_digit(#[trigger] srow[w]) && char_piece(srow[w])
                    == usize::MAX;
            assert(bad_at(srow, w));
        }
    }
    (false, file == 8)
}

/// The `usize` a field denotes as `usize` parsing reads it: an optional `+`, then one or more
/// decimal digits and nothing else, in range.
pub open spec fn usize_value(f: Seq<char>) -> Option<usize> {
    let digits = if f.len() > 0 && f[0] == '+' {
        f.drop_first()
    } else {
        f
    };
    if digits.len() > 0 && all_digits(digits) && digits_value(digits) <= usize::MAX {
        Some(digits_value(digits) as usize)
    } else {
        None
    }
}

/// Reads a field as `usize` parsing does.
pub fn parse_usize_chars(f: &Vec<char>) -> (res: Option<usize>)
    ensures
        res == usize_value(f@),
{
    let start: usize = if f.len() > 0 && f[0] == '+' {
        1
    } else {
        0
    };
    if start >= f.len() {
        return None;
    }
    assert(f@.subrange(0, f@.len() as int) =~= f@);
    assert(f@.subrange(1, f@.len() as int) =~= f@.drop_first());
    match digits_capped(f, start, 0x1_0000_0000_0000_0000) {
        None => None,
        Some(v) => {
            if v > usize::MAX as u128 {
                None
            } else {
                Some(v as usize)
            }
        },
    }
}

/// Whether placing the pieces of a board field runs past the last square.
fn board_overflows_chars(board: &Vec<char>) -> (res: bool)
    ensures
        res == board_overflows(board@),
{
    let rows = split_chars(board, '/');
    let ghost srows = split_on(board@, '/');
    if rows.len() != 8 {
        return false;
    }
    let mut rank: usize = 0;
    while rank < 8
        invariant
            rows@.len() == 8,
            srows == split_on(board@, '/'),
            srows.len() == 8,
            forall|i: int| 0 <= i < 8 ==> #[trigger] rows@[i]@ == srows[i],
            0 <= rank <= 8,
            rows_overflow(srows, 0) == rows_overflow(srows, rank as int),
        decreases 8 - rank,
    {
        let (overflows, good) = scan_row(&rows[rank], rank);
        if overflows {
            return true;
        }
        if !good {
            return false;
        }
        rank = rank + 1;
    }
    false
}

/// Whether converting `fen_str` reaches a step that cannot complete (`fen_parse_stops`):
/// `string_to_fen` and `Fen::from_str` take exactly the strings for which this is false.
pub fn string_to_fen_stops(fen_str: &str) -> (res: bool)
    ensures
        res == fen_parse_stops(fen_str@),
{
    let s = str_to_chars(fen_str);
    let split = split_whitespace_chars(&s);
    let ghost fs = ws_fields(s@);
    if split.len() != 6 {
        return false;
    }
    assert(split@[0]@ == fs[0] && split@[1]@ == fs[1] && split@[2]@ == fs[2]
        && split@[3]@ == fs[3] && split@[4]@ == fs[4] && split@[5]@ == fs[5]);
    if board_overflows_chars(&split[0]) {
        return true;
    }
    if fen_notation_to_board_chars(&split[0]).is_err() {
        return false;
    }
    if !chars_are(&split[1], 'w') && !chars_are(&split[1], 'b') {
        return false;
    }
    if parse_castle(&split[2]).is_none() {
        return false;
    }
    let ep = &split[3];
    if ep.len() == 1 && '\u{80}' <= ep[0] && ep[0] <= '\u{7ff}' {
        return true;
    }
    let ep_ok = chars_are(ep, '-') || (ep.len() == 2 && lan_to_file(ep[0]) != usize::MAX
        && lan_to_rank(ep[1]) != usize::MAX);
    if !ep_ok {
        return false;
    }
    assert(split@[4]@.subrange(0, split@[4]@.len() as int) =~= split@[4]@);
    assert(split@[5]@.subrange(0, split@[5]@.len() as int) =~= split@[5]@);
    let halfmove = match digits_capped(&split[4], 0, 0x1_0000_0000_0000_0000) {
        None => return false,
        Some(v) => v,
    };
    if halfmove > 0xffff_ffff_ffff_ffff {
        return true;
    }
    if halfmove > 65535 {
        return false;
    }
    match digits_capped(&split[5], 0, 0x1_0000_0000_0000_0000) {
        None => false,
        Some(v) => v > 0xffff_ffff_ffff_ffff,
    }
}

} // verus!
