//! The text diagram of a position that the command line shows.
use vstd::prelude::*;
use crate::bitboard::square_bb;
use crate::board::{FenArray, INFO, PIECE_TYPES};
use crate::fen::Fen;
use crate::parsing::{top_piece, piece_char, piece_to_char, info_text, info_string};
use crate::text::{push_char, push_chars, str_to_chars, digit_char};

verus! {

pub const BOARD_LABEL: &'static str = "Board: ";

pub const DIAGRAM_FOOTER: &'static str = "\n\t  + ---------------\n\t    a b c d e f g h";

/// The diagram cell of square `s`: the letter of the piece shown there, or `.`, then a space.
pub open spec fn diagram_cell(a: Seq<u64>, s: int) -> Seq<char> {
    match top_piece(a, s, 12) {
        Some(p) => seq![piece_char(p), ' '],
        None => seq!['.', ' '],
    }
}

/// The cells of row `rank` (0 is the eighth rank) from file `file` on (0 is the a file).
pub open spec fn diagram_row_from(a: Seq<u64>, rank: int, file: int) -> Seq<char>
    decreases 8 - file,
{
    if file >= 8 {
        Seq::empty()
    } else {
        diagram_cell(a, 63 - (rank * 8 + file)) + diagram_row_from(a, rank, file + 1)
    }
}

/// The rows from `rank` on, each on a line of its own after its number.
pub open spec fn diagram_rows_from(a: Seq<u64>, rank: int) -> Seq<char>
    decreases 8 - rank,
{
    if rank >= 8 {
        Seq::empty()
    } else {
        seq!['\n', '\t', digit_char(8 - rank), ' ', '|', ' '] + diagram_row_from(a, rank, 0)
            + diagram_rows_from(a, rank + 1)
    }
}

/// The diagram of a position: the FEN fields after the board, then the board rank by rank
/// from the eighth, then the files.
pub open spec fn diagram_text(a: Seq<u64>) -> Seq<char> {
    BOARD_LABEL@ + info_text(a[INFO as int]) + seq!['\n'] + diagram_rows_from(a, 0)
        + DIAGRAM_FOOTER@
}

/// The piece shown on square `sq`: the highest piece index whose bitboard holds it.
fn piece_at(array: &FenArray, sq: usize) -> (res: Option<usize>)
    requires
        sq < 64,
    ensures
        res matches Some(p) ==> p < 12 && top_piece(array@, sq as int, 12) == Some(p as int),
        res is None ==> top_piece(array@, sq as int, 12) is None,
{
    let pos = 1u64 << sq;
    let mut piece_index: Option<usize> = None;
    for i in 0..PIECE_TYPES
        invariant
            sq < 64,
            pos == square_bb(sq as int),
            piece_index matches Some(p) ==> p < i && top_piece(array@, sq as int, i as int) == Some(
                p as int,
            ),
            piece_index is None ==> top_piece(array@, sq as int, i as int) is None,
    {
        proof {
            crate::bitboard::lemma_test_square(array[i as int], sq as int);
        }
        if array[i] & pos != 0 {
            piece_index = Some(i);
        }
    }
    piece_index
}

impl Fen {
    /// The diagram of the position, as the command line shows it.
    pub fn board_diagram(&self) -> (res: String)
        ensures
            res@ == diagram_text(self@),
    {
        let ghost a = self@;
        let mut result = BOARD_LABEL.to_string();
        let info = info_string(self.array[INFO]);
        push_chars(&mut result, &str_to_chars(info.as_str()));
        push_char(&mut result, '\n');
        assert(result@ + diagram_rows_from(a, 0) + DIAGRAM_FOOTER@ =~= diagram_text(a));
        for rank in 0usize..8
            invariant
                a == self@,
                result@ + diagram_rows_from(a, rank as int) + DIAGRAM_FOOTER@ == diagram_text(a),
        {
            let ghost before = result@;
            push_char(&mut result, '\n');
            push_char(&mut result, '\t');
            let number: u8 = (56 - rank) as u8;
            push_char(&mut result, number as char);
            push_char(&mut result, ' ');
            push_char(&mut result, '|');
            push_char(&mut result, ' ');
            assert(result@ =~= before + seq!['\n', '\t', digit_char(8 - rank), ' ', '|', ' ']);
            for file in 0usize..8
                invariant
                    a == self@,
                    rank < 8,
                    result@ + diagram_row_from(a, rank as int, file as int) + diagram_rows_from(
                        a,
                        rank + 1,
                    ) + DIAGRAM_FOOTER@ == diagram_text(a),
            {
                let ghost row_before = result@;
                match piece_at(&self.array, 63 - (rank * 8 + file)) {
                    Some(p) => push_char(&mut result, piece_to_char(p)),
                    None => push_char(&mut result, '.'),
                }
                push_char(&mut result, ' ');
                assert(result@ + diagram_row_from(a, rank as int, file + 1) =~= row_before
                    + diagram_row_from(a, rank as int, file as int));
            }
        }
        let ghost before = result@;
        push_chars(&mut result, &str_to_chars(DIAGRAM_FOOTER));
        assert(result@ =~= before + DIAGRAM_FOOTER@);
        result
    }
}

} // verus!
