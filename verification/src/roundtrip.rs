use vstd::prelude::*;
use crate::parsing::{
    split_on, row_cells, is_digit, digit_val, char_piece, piece_char, top_piece, row_text_from,
    board_text_from, board_text, row_sep, parse_board, check_rows, row_bad_piece, board_cell,
    board_bb, board_array,
};
use crate::bitboard::{bit, lemma_bb_of};
use crate::board::{
    white_of, black_of, INFO, TURN_FLAG, WHITE_KINGSIDE_RIGHTS, WHITE_QUEENSIDE_RIGHTS,
    BLACK_KINGSIDE_RIGHTS, BLACK_QUEENSIDE_RIGHTS, ENPASSANT_FLAG, HALFMOVE_FLAG, FULLMOVE_FLAG,
};
use crate::parsing::{
    is_ws, ws_fields, all_digits, digits_value, castle_ok, castle_bits, castle_text, turn_text,
    ep_text, fen_text, parse_fen, fen_parse_stops, two_byte_char, valid_lan_chars, lan_square,
    file_char, rank_char, file_index, rank_index, castle_order,
};
use crate::text::decimal;
use crate::text::digit_char;

verus! {

/// Cutting at a separator splits the pieces of both sides.
pub proof fn lemma_split_join(x: Seq<char>, sep: char, y: Seq<char>)
    ensures
        split_on(x + seq![sep] + y, sep) == split_on(x, sep) + split_on(y, sep),
    decreases y.len(),
{
    if y.len() == 0 {
        assert(x + seq![sep] + y =~= x.push(sep));
        assert(x.push(sep).drop_last() =~= x);
        assert(split_on(y, sep) =~= seq![Seq::<char>::empty()]);
        assert(split_on(x, sep).push(Seq::empty()) =~= split_on(x, sep) + split_on(y, sep));
    } else {
        let y2 = y.drop_last();
        let c = y.last();
        lemma_split_join(x, sep, y2);
        lemma_split_len(y2, sep);
        let s = x + seq![sep] + y;
        assert(s.drop_last() =~= x + seq![sep] + y2);
        assert(s.last() == c);
        let l = split_on(x, sep);
        let r = split_on(y2, sep);
        if c == sep {
            assert((l + r).push(Seq::empty()) =~= l + r.push(Seq::empty()));
        } else {
            assert((l + r).update((l + r).len() - 1, (l + r).last().push(c)) =~= l + r.update(
                r.len() - 1,
                r.last().push(c),
            ));
        }
    }
}

/// Splitting at `sep` gives one piece more than there are separators.
pub proof fn lemma_split_len(x: Seq<char>, sep: char)
    ensures
        split_on(x, sep).len() >= 1,
    decreases x.len(),
{
    if x.len() > 0 {
        lemma_split_len(x.drop_last(), sep);
    }
}

/// A text without the separator is a single piece.
pub proof fn lemma_split_single(x: Seq<char>, sep: char)
    requires
        forall|i: int| 0 <= i < x.len() ==> x[i] != sep,
    ensures
        split_on(x, sep) == seq![x],
    decreases x.len(),
{
    if x.len() > 0 {
        lemma_split_single(x.drop_last(), sep);
        assert(x.drop_last().push(x.last()) =~= x);
        assert(seq![x.drop_last()].update(0, x.drop_last().push(x.last())) =~= seq![x]);
    } else {
        assert(x =~= Seq::<char>::empty());
    }
}

/// The cells of a row text are the cells of its parts.
pub proof fn lemma_row_cells_concat(x: Seq<char>, y: Seq<char>)
    ensures
        row_cells(x + y) == row_cells(x) + row_cells(y),
    decreases y.len(),
{
    if y.len() == 0 {
        assert(x + y =~= x);
        assert(row_cells(y) =~= Seq::<Option<int>>::empty());
        assert(row_cells(x) + row_cells(y) =~= row_cells(x));
    } else {
        lemma_row_cells_concat(x, y.drop_last());
        assert((x + y).drop_last() =~= x + y.drop_last());
        assert((x + y).last() == y.last());
        let l = row_cells(x);
        let r = row_cells(y.drop_last());
        if is_digit(y.last()) {
            let n = Seq::new(digit_val(y.last()) as nat, |i: int| None::<int>);
            assert((l + r) + n =~= l + (r + n));
        } else {
            assert((l + r).push(Some(char_piece(y.last()) as int)) =~= l + r.push(
                Some(char_piece(y.last()) as int),
            ));
        }
    }
}

/// `n` empty cells.
pub open spec fn nones(n: int) -> Seq<Option<int>> {
    Seq::new(n as nat, |i: int| None::<int>)
}

/// The cells of row `r` (0 is the eighth rank) from file `f` on (0 is the a file).
pub open spec fn cells_from(a: Seq<u64>, r: int, f: int) -> Seq<Option<int>> {
    Seq::new((8 - f) as nat, |i: int| top_piece(a, 63 - (r * 8 + f + i), 12))
}

/// Every character of a row text is a digit or a piece letter, and none is a slash.
pub open spec fn row_chars_ok(t: Seq<char>) -> bool {
    forall|i: int|
        0 <= i < t.len() ==> (is_digit(#[trigger] t[i]) || char_piece(t[i]) != usize::MAX) && t[i]
            != '/'
}

/// The piece found on a square is a piece index or none.
pub proof fn lemma_top_piece_range(a: Seq<u64>, s: int, n: int)
    requires
        0 <= n,
    ensures
        top_piece(a, s, n) matches Some(p) ==> 0 <= p < n,
    decreases n,
{
    if n > 0 {
        lemma_top_piece_range(a, s, n - 1);
    }
}

/// Writing a piece as its FEN letter and reading the letter back gives the piece.
pub proof fn lemma_piece_char_roundtrip(p: int)
    requires
        0 <= p < 12,
    ensures
        char_piece(piece_char(p)) == p,
        !is_digit(piece_char(p)),
        piece_char(p) != '/',
{
}

/// A digit character reads back as its value.
pub proof fn lemma_digit_char(e: int)
    requires
        0 <= e <= 9,
    ensures
        is_digit(digit_char(e)),
        digit_val(digit_char(e)) == e,
        digit_char(e) != '/',
{
}

/// The text of a row lists its cells.
pub proof fn lemma_row_text_cells(a: Seq<u64>, r: int, f: int, e: int)
    requires
        0 <= f <= 8,
        0 <= e <= f,
    ensures
        row_cells(row_text_from(a, r, f, e)) == nones(e) + cells_from(a, r, f),
        row_chars_ok(row_text_from(a, r, f, e)),
    decreases 8 - f,
{
    let t = row_text_from(a, r, f, e);
    if f >= 8 {
        assert(cells_from(a, r, f) =~= Seq::<Option<int>>::empty());
        if e > 0 {
            lemma_digit_char(e);
            assert(seq![digit_char(e)].drop_last() =~= Seq::<char>::empty());
            assert(row_cells(Seq::<char>::empty()) =~= Seq::<Option<int>>::empty());
            assert(row_cells(t) =~= nones(e) + cells_from(a, r, f));
        } else {
            assert(row_cells(t) =~= nones(e) + cells_from(a, r, f));
        }
    } else {
        let sq = 63 - (r * 8 + f);
        lemma_top_piece_range(a, sq, 12);
        match top_piece(a, sq, 12) {
            Some(p) => {
                lemma_row_text_cells(a, r, f + 1, 0);
                lemma_piece_char_roundtrip(p);
                let d: Seq<char> = if e > 0 {
                    seq![digit_char(e)]
                } else {
                    Seq::empty()
                };
                let rest = row_text_from(a, r, f + 1, 0);
                assert(t == d + seq![piece_char(p)] + rest);
                lemma_row_cells_concat(d + seq![piece_char(p)], rest);
                lemma_row_cells_concat(d, seq![piece_char(p)]);
                assert(seq![piece_char(p)].drop_last() =~= Seq::<char>::empty());
                assert(seq![piece_char(p)].last() == piece_char(p));
                assert(row_cells(Seq::<char>::empty()) =~= Seq::<Option<int>>::empty());
                assert(row_cells(seq![piece_char(p)]) =~= seq![Some(p)]);
                if e > 0 {
                    lemma_digit_char(e);
                    assert(seq![digit_char(e)].drop_last() =~= Seq::<char>::empty());
                    assert(row_cells(d) =~= nones(e));
                } else {
                    assert(row_cells(d) =~= nones(e));
                }
                assert(nones(0) + cells_from(a, r, f + 1) =~= cells_from(a, r, f + 1));
                assert(nones(e) + seq![Some(p)] + cells_from(a, r, f + 1) =~= nones(e) + cells_from(
                    a,
                    r,
                    f,
                ));
                assert forall|i: int| 0 <= i < t.len() implies (is_digit(#[trigger] t[i])
                    || char_piece(t[i]) != usize::MAX) && t[i] != '/' by {
                    if i < d.len() {
                        lemma_digit_char(e);
                    } else if i == d.len() {
                    } else {
                        assert(t[i] == rest[i - d.len() - 1]);
                    }
                }
            },
            None => {
                lemma_row_text_cells(a, r, f + 1, e + 1);
                assert(nones(e + 1) + cells_from(a, r, f + 1) =~= nones(e) + cells_from(a, r, f));
            },
        }
    }
}

/// The board text splits into the texts of its rows.
pub proof fn lemma_board_rows(a: Seq<u64>, r: int)
    requires
        0 <= r <= 7,
    ensures
        split_on(board_text_from(a, r), '/') == Seq::new(
            (8 - r) as nat,
            |i: int| row_text_from(a, r + i, 0, 0),
        ),
    decreases 8 - r,
{
    lemma_row_text_cells(a, r, 0, 0);
    let row = row_text_from(a, r, 0, 0);
    if r == 7 {
        assert(board_text_from(a, 8) =~= Seq::<char>::empty());
        assert(board_text_from(a, 7) =~= row);
        lemma_split_single(row, '/');
        assert(Seq::new(1, |i: int| row_text_from(a, r + i, 0, 0)) =~= seq![row]);
    } else {
        lemma_board_rows(a, r + 1);
        assert(board_text_from(a, r) == row + seq!['/'] + board_text_from(a, r + 1));
        lemma_split_join(row, '/', board_text_from(a, r + 1));
        lemma_split_single(row, '/');
        assert(seq![row] + Seq::new((8 - (r + 1)) as nat, |i: int| row_text_from(a, r + 1 + i, 0, 0))
            =~= Seq::new((8 - r) as nat, |i: int| row_text_from(a, r + i, 0, 0)));
    }
}

/// The pieces of a position are on distinct squares.
pub open spec fn pieces_disjoint(a: Seq<u64>) -> bool {
    forall|p: int, q: int, s: int|
        0 <= p < q < 12 ==> !(#[trigger] bit(a[p], s) && #[trigger] bit(a[q], s))
}

/// When no two pieces share a square, the piece found on a square is the one standing there.
pub proof fn lemma_top_piece_disjoint(a: Seq<u64>, s: int, n: int, p: int)
    requires
        0 <= n <= 12,
        0 <= p < 12,
        pieces_disjoint(a),
    ensures
        top_piece(a, s, n) == Some(p) <==> p < n && bit(a[p], s),
    decreases n,
{
    if n > 0 {
        lemma_top_piece_disjoint(a, s, n - 1, p);
        if bit(a[n - 1], s) && p < n - 1 && bit(a[p], s) {
            assert(!(bit(a[p], s) && bit(a[n - 1], s)));
        }
    }
}

proof fn lemma_rows_check(a: Seq<u64>, rows: Seq<Seq<char>>, i: int)
    requires
        0 <= i <= 8,
        rows == Seq::new(8, |k: int| row_text_from(a, k, 0, 0)),
    ensures
        check_rows(rows, i) == Ok::<(), Seq<char>>(()),
    decreases 8 - i,
{
    if i < 8 {
        lemma_rows_check(a, rows, i + 1);
        lemma_row_text_cells(a, i, 0, 0);
        let row = rows[i];
        assert(row == row_text_from(a, i, 0, 0));
        if row_bad_piece(row) {
            let j = choose|j: int| 0 <= j < row.len() && !is_digit(#[trigger] row[j]) && char_piece(row[j])
                == usize::MAX;
            assert(is_digit(row[j]) || char_piece(row[j]) != usize::MAX);
        }
        assert(row_cells(row).len() == 8);
    }
}

/// Parsing the board text of a position gives back its piece bitboards.
pub proof fn lemma_parse_board_text(a: Seq<u64>)
    requires
        a.len() == 15,
        pieces_disjoint(a),
        a[12] == white_of(a),
        a[13] == black_of(a),
    ensures
        parse_board(board_text(a)) == Ok::<Seq<u64>, Seq<char>>(a.update(14, 0)),
{
    reveal(board_text);
    lemma_board_rows(a, 0);
    let rows = split_on(board_text(a), '/');
    assert(rows =~= Seq::new(8, |k: int| row_text_from(a, k, 0, 0)));
    lemma_rows_check(a, rows, 0);
    assert forall|p: int| 0 <= p < 12 implies board_bb(rows, p) == a[p] by {
        assert forall|t: int| #[trigger] bit(a[p], t) <==> 0 <= t < 64 && board_cell(rows, t) == Some(
            p,
        ) by {
            if 0 <= t < 64 {
                let k = 63 - t;
                let r = k / 8;
                let f = k % 8;
                lemma_row_text_cells(a, r, 0, 0);
                assert(rows[r] == row_text_from(a, r, 0, 0));
                assert(row_cells(rows[r]) =~= nones(0) + cells_from(a, r, 0));
                assert(row_cells(rows[r])[f] == top_piece(a, t, 12));
                lemma_top_piece_disjoint(a, t, 12, p);
            }
        }
        lemma_bb_of(a[p], |t: int| board_cell(rows, t) == Some(p));
    }
    let pieces = Seq::new(12, |p: int| board_bb(rows, p));
    assert(white_of(pieces) == white_of(a));
    assert(black_of(pieces) == black_of(a));
    assert(board_array(rows) =~= a.update(14, 0));
}

/// A space separates fields.
pub proof fn lemma_ws_join(x: Seq<char>, y: Seq<char>)
    ensures
        ws_fields(x + seq![' '] + y) == ws_fields(x) + ws_fields(y),
    decreases y.len(),
{
    if y.len() == 0 {
        assert(x + seq![' '] + y =~= x.push(' '));
        assert(x.push(' ').drop_last() =~= x);
        assert(ws_fields(y) =~= Seq::<Seq<char>>::empty());
        assert(ws_fields(x) + ws_fields(y) =~= ws_fields(x));
    } else {
        let y2 = y.drop_last();
        let c = y.last();
        lemma_ws_join(x, y2);
        let s = x + seq![' '] + y;
        assert(s.drop_last() =~= x + seq![' '] + y2);
        assert(s.last() == c);
        assert(s[s.len() - 2] == if y.len() >= 2 {
            y[y.len() - 2]
        } else {
            ' '
        });
        let l = ws_fields(x);
        let r = ws_fields(y2);
        if is_ws(c) {
        } else if y.len() >= 2 && !is_ws(y[y.len() - 2]) {
            assert(y2.last() == y[y.len() - 2]);
            lemma_ws_fields_len(y2);
            assert((l + r).update((l + r).len() - 1, (l + r).last().push(c)) =~= l + r.update(
                r.len() - 1,
                r.last().push(c),
            ));
        } else {
            assert((l + r).push(seq![c]) =~= l + r.push(seq![c]));
        }
    }
}

/// The number of whitespace-separated fields of a text.
pub proof fn lemma_ws_fields_len(x: Seq<char>)
    requires
        x.len() >= 1,
        !is_ws(x.last()),
    ensures
        ws_fields(x).len() >= 1,
    decreases x.len(),
{
    if x.len() >= 2 && !is_ws(x[x.len() - 2]) {
        assert(x.drop_last().last() == x[x.len() - 2]);
        lemma_ws_fields_len(x.drop_last());
    }
}

/// A nonempty text without white space is one field.
pub proof fn lemma_ws_single(w: Seq<char>)
    requires
        w.len() >= 1,
        forall|i: int| 0 <= i < w.len() ==> !is_ws(#[trigger] w[i]),
    ensures
        ws_fields(w) == seq![w],
    decreases w.len(),
{
    if w.len() == 1 {
        assert(w.drop_last() =~= Seq::<char>::empty());
        assert(ws_fields(Seq::<char>::empty()) =~= Seq::<Seq<char>>::empty());
        assert(!is_ws(w[0]));
        assert(seq![w.last()] =~= w);
        assert(Seq::<Seq<char>>::empty().push(seq![w.last()]) =~= seq![w]);
    } else {
        lemma_ws_single(w.drop_last());
        assert(w.drop_last().push(w.last()) =~= w);
        assert(w[w.len() - 2] == w.drop_last()[w.len() - 2]);
        assert(seq![w.drop_last()].update(0, w.drop_last().push(w.last())) =~= seq![w]);
    }
}

/// Decimal notation is a nonempty string of digits that denotes the number.
pub proof fn lemma_decimal(n: nat)
    ensures
        decimal(n).len() >= 1,
        all_digits(decimal(n)),
        forall|i: int| 0 <= i < decimal(n).len() ==> !is_ws(#[trigger] decimal(n)[i]),
        digits_value(decimal(n)) == n,
    decreases n,
{
    lemma_digit_char((n % 10) as int);
    if n >= 10 {
        lemma_decimal(n / 10);
        let d = decimal(n);
        assert(d.drop_last() =~= decimal(n / 10));
        assert(d.last() == digit_char((n % 10) as int));
        assert(digits_value(d) == digits_value(decimal(n / 10)) * 10 + (n % 10));
        assert((n / 10) * 10 + n % 10 == n);
        assert forall|i: int| 0 <= i < d.len() implies is_digit(#[trigger] d[i]) by {
            if i < d.len() - 1 {
                assert(d[i] == decimal(n / 10)[i]);
            }
        }
    } else {
        lemma_digit_char(n as int);
        assert(decimal(n).drop_last() =~= Seq::<char>::empty());
        assert(decimal(n).last() == digit_char(n as int));
        assert(digits_value(Seq::<char>::empty()) == 0);
    }
}

/// The castling field written for an information word reads back as its rights.
pub proof fn lemma_castle_text(info: u64)
    ensures
        castle_ok(castle_text(info)),
        castle_bits(castle_text(info)) == info & 0x1e00_0000_0000u64,
        castle_text(info).len() >= 1,
        forall|i: int| 0 <= i < castle_text(info).len() ==> !is_ws(#[trigger] castle_text(info)[i]),
{
    let k = info & WHITE_KINGSIDE_RIGHTS != 0;
    let q = info & WHITE_QUEENSIDE_RIGHTS != 0;
    let bk = info & BLACK_KINGSIDE_RIGHTS != 0;
    let bq = info & BLACK_QUEENSIDE_RIGHTS != 0;
    let t = castle_text(info);
    if k {
if q {
if bk {
if bq {
assert(castle_text(info) =~= seq!['K', 'Q', 'k', 'q']);
} else {
assert(castle_text(info) =~= seq!['K', 'Q', 'k']);
}
} else {
if bq {
assert(castle_text(info) =~= seq!['K', 'Q', 'q']);
} else {
assert(castle_text(info) =~= seq!['K', 'Q']);
}
}
} else {
if bk {
if bq {
assert(castle_text(info) =~= seq!['K', 'k', 'q']);
} else {
assert(castle_text(info) =~= seq!['K', 'k']);
}
} else {
if bq {
assert(castle_text(info) =~= seq!['K', 'q']);
} else {
assert(castle_text(info) =~= seq!['K']);
}
}
}
} else {
if q {
if bk {
if bq {
assert(castle_text(info) =~= seq!['Q', 'k', 'q']);
} else {
assert(castle_text(info) =~= seq!['Q', 'k']);
}
} else {
if bq {
assert(castle_text(info) =~= seq!['Q', 'q']);
} else {
assert(castle_text(info) =~= seq!['Q']);
}
}
} else {
if bk {
if bq {
assert(castle_text(info) =~= seq!['k', 'q']);
} else {
assert(castle_text(info) =~= seq!['k']);
}
} else {
if bq {
assert(castle_text(info) =~= seq!['q']);
} else {
assert(castle_text(info) =~= seq!['-']);
}
}
}
}
    assert(t.contains('K') == k) by {
        if k {
            assert(t[0] == 'K');
        }
    }
    assert(t.contains('Q') == q) by {
        if q {
            if k {
                assert(t[1] == 'Q');
            } else {
                assert(t[0] == 'Q');
            }
        }
    }
    assert(t.contains('k') == bk) by {
        if bk {
            let i = (if k { 1int } else { 0 }) + (if q { 1int } else { 0 });
            assert(t[i] == 'k');
        }
    }
    assert(t.contains('q') == bq) by {
        if bq {
            let i = (if k { 1int } else { 0 }) + (if q { 1int } else { 0 }) + (if bk { 1int } else { 0 });
            assert(t[i] == 'q');
        }
    }
    assert(((if info & 0x200_0000_0000u64 != 0 {
        0x200_0000_0000u64
    } else {
        0u64
    }) | (if info & 0x400_0000_0000u64 != 0 {
        0x400_0000_0000u64
    } else {
        0u64
    }) | (if info & 0x800_0000_0000u64 != 0 {
        0x800_0000_0000u64
    } else {
        0u64
    }) | (if info & 0x1000_0000_0000u64 != 0 {
        0x1000_0000_0000u64
    } else {
        0u64
    })) == info & 0x1e00_0000_0000u64) by (bit_vector);
}

/// The characters of the written board are piece letters, digits and slashes.
pub proof fn lemma_board_text_chars(a: Seq<u64>, r: int)
    requires
        0 <= r <= 7,
    ensures
        board_text_from(a, r).len() >= 1,
        forall|i: int|
            0 <= i < board_text_from(a, r).len() ==> !is_ws(#[trigger] board_text_from(a, r)[i]),
    decreases 8 - r,
{
    lemma_row_text_cells(a, r, 0, 0);
    let row = row_text_from(a, r, 0, 0);
    assert(row_cells(row).len() == 8);
    if row.len() == 0 {
        assert(row_cells(row) =~= Seq::<Option<int>>::empty());
    }
    let t = board_text_from(a, r);
    assert forall|i: int| 0 <= i < row.len() implies !is_ws(#[trigger] row[i]) by {
        assert(is_digit(row[i]) || char_piece(row[i]) != usize::MAX);
    }
    if r == 7 {
        assert(board_text_from(a, 8) =~= Seq::<char>::empty());
        assert(t =~= row);
    } else {
        lemma_board_text_chars(a, r + 1);
        let rest = board_text_from(a, r + 1);
        assert(t == row + seq!['/'] + rest);
        assert forall|i: int| 0 <= i < t.len() implies !is_ws(#[trigger] t[i]) by {
            if i < row.len() {
                assert(t[i] == row[i]);
            } else if i > row.len() {
                assert(t[i] == rest[i - row.len() - 1]);
            }
        }
    }
}

/// Writing a square as its name and reading the name back gives the square.
pub proof fn lemma_square_chars(k: int)
    requires
        0 <= k < 64,
    ensures
        valid_lan_chars(seq![file_char(k % 8), rank_char(k / 8)]),
        lan_square(seq![file_char(k % 8), rank_char(k / 8)]) == k,
        !is_ws(file_char(k % 8)),
        !is_ws(rank_char(k / 8)),
{
    let f = k % 8;
    let r = k / 8;
    assert(file_index(file_char(f)) == f) by {
        if f == 0 {
        } else if f == 1 {
        } else if f == 2 {
        } else if f == 3 {
        } else if f == 4 {
        } else if f == 5 {
        } else if f == 6 {
        } else {
        }
    }
    assert(rank_index(rank_char(r)) == r) by {
        if r == 0 {
        } else if r == 1 {
        } else if r == 2 {
        } else if r == 3 {
        } else if r == 4 {
        } else if r == 5 {
        } else if r == 6 {
        } else {
        }
    }
}

/// The information word holds nothing but its fields, and at most square 64 (none) as en
/// passant square.
pub open spec fn canonical_info(info: u64) -> bool {
    info & !0x1fff_ffff_ff7fu64 == 0 && info & ENPASSANT_FLAG <= 64
}

/// A position as parsing produces it: pieces on distinct squares, the colour unions in
/// place, and a clean information word.
pub open spec fn canonical(a: Seq<u64>) -> bool {
    &&& a.len() == 15
    &&& pieces_disjoint(a)
    &&& a[12] == white_of(a)
    &&& a[13] == black_of(a)
    &&& canonical_info(a[INFO as int])
}

proof fn lemma_info_fields(info: u64)
    by (bit_vector)
    requires
        info & !0x1fff_ffff_ff7fu64 == 0,
    ensures
        info == (if info & 0x100_0000_0000u64 != 0 {
            0x100_0000_0000u64
        } else {
            0u64
        }) | (info & 0x1e00_0000_0000u64) | (info & 0x7fu64) | (((info & 0xff_ff00u64) >> 8u64)
            << 8u64) | (((info & 0xff_ff00_0000u64) >> 24u64) << 24u64),
        (info & 0xff_ff00u64) >> 8u64 <= 0xffff,
        (info & 0xff_ff00_0000u64) >> 24u64 <= 0xffff,
{
}

/// Reading the FEN of a position gives the position back.
pub proof fn lemma_fen_roundtrip(a: Seq<u64>)
    requires
        canonical(a),
    ensures
        !fen_parse_stops(fen_text(a)),
        parse_fen(fen_text(a)) == Ok::<Seq<u64>, Seq<char>>(a),
{
    let info = a[INFO as int];
    let b = board_text(a);
    let t = turn_text(info);
    let c = castle_text(info);
    let e = ep_text(info);
    let hv = ((info & HALFMOVE_FLAG) >> 8) as nat;
    let fv = ((info & FULLMOVE_FLAG) >> 24) as nat;
    let h = decimal(hv);
    let f = decimal(fv);
    lemma_info_fields(info);
    lemma_parse_board_text(a);
    crate::parsing::lemma_checked_rows_fit(split_on(b, '/'), 0);
    reveal(board_text);
    lemma_board_text_chars(a, 0);
    lemma_castle_text(info);
    lemma_decimal(hv);
    lemma_decimal(fv);
    let k = info & ENPASSANT_FLAG;
    if k < 64 {
        lemma_square_chars(k as int);
    }
    assert forall|i: int| 0 <= i < e.len() implies !is_ws(#[trigger] e[i]) by {}
    assert forall|i: int| 0 <= i < t.len() implies !is_ws(#[trigger] t[i]) by {}
    lemma_ws_single(b);
    lemma_ws_single(t);
    lemma_ws_single(c);
    lemma_ws_single(e);
    lemma_ws_single(h);
    lemma_ws_single(f);
    let p1 = b + seq![' '] + t;
    let p2 = p1 + seq![' '] + c;
    let p3 = p2 + seq![' '] + e;
    let p4 = p3 + seq![' '] + h;
    let p5 = p4 + seq![' '] + f;
    assert(fen_text(a) == p5);
    lemma_ws_join(b, t);
    lemma_ws_join(p1, c);
    lemma_ws_join(p2, e);
    lemma_ws_join(p3, h);
    lemma_ws_join(p4, f);
    let fs = ws_fields(p5);
    assert(fs =~= seq![b, t, c, e, h, f]);
    assert(!two_byte_char(e)) by {
        if e.len() == 1 {
            assert(e[0] == '-');
        }
    }
    let turn: u64 = if t == seq!['w'] {
        TURN_FLAG
    } else {
        0
    };
    assert(turn == (if info & TURN_FLAG != 0 {
        TURN_FLAG
    } else {
        0u64
    })) by {
        if info & TURN_FLAG == 0 {
            assert(t[0] == 'b');
        }
    }
    let ep: u64 = if e == seq!['-'] {
        64u64
    } else {
        lan_square(e) as u64
    };
    assert(ep == k) by {
        if k < 64 {
            if e == seq!['-'] {
                assert(e[0] == '-');
            }
        }
    }
    assert(a.update(14, 0).update(INFO as int, info) =~= a);
}

proof fn lemma_clean_info(turn: u64, castle: u64, ep: u64, hm: u64, fm: u64)
    by (bit_vector)
    requires
        turn == 0 || turn == 0x100_0000_0000u64,
        castle & !0x1e00_0000_0000u64 == 0,
        ep <= 64,
        hm <= 0xffff,
        fm <= 0xffff,
    ensures
        (turn | castle | ep | (hm << 8u64) | (fm << 24u64)) & !0x1fff_ffff_ff7fu64 == 0,
        (turn | castle | ep | (hm << 8u64) | (fm << 24u64)) & 0x7fu64 == ep,
{
}

proof fn lemma_castle_bits_clean(f: Seq<char>)
    ensures
        castle_bits(f) & !0x1e00_0000_0000u64 == 0,
{
    let k = f.contains('K');
    let q = f.contains('Q');
    let bk = f.contains('k');
    let bq = f.contains('q');
    assert(((if k {
        0x200_0000_0000u64
    } else {
        0u64
    }) | (if q {
        0x400_0000_0000u64
    } else {
        0u64
    }) | (if bk {
        0x800_0000_0000u64
    } else {
        0u64
    }) | (if bq {
        0x1000_0000_0000u64
    } else {
        0u64
    })) & !0x1e00_0000_0000u64 == 0) by (bit_vector);
}

/// What parsing produces is canonical, so writing a parsed position and reading it again
/// gives the same position.
pub proof fn lemma_parse_canonical(s: Seq<char>)
    requires
        parse_fen(s) is Ok,
    ensures
        canonical(parse_fen(s)->Ok_0),
        parse_fen(fen_text(parse_fen(s)->Ok_0)) == parse_fen(s),
{
    let fs = ws_fields(s);
    let rows = split_on(fs[0], '/');
    let a = parse_fen(s)->Ok_0;
    let b = board_array(rows);
    assert(pieces_disjoint(a)) by {
        assert forall|p: int, q: int, t: int|
            0 <= p < q < 12 implies !(#[trigger] bit(a[p], t) && #[trigger] bit(a[q], t)) by {
            lemma_bb_of_props(rows, p);
            lemma_bb_of_props(rows, q);
        }
    }
    let f4 = fs[4];
    let f5 = fs[5];
    let turn: u64 = if fs[1] == seq!['w'] {
        TURN_FLAG
    } else {
        0
    };
    let ep: u64 = if fs[3] == seq!['-'] {
        64u64
    } else {
        lan_square(fs[3]) as u64
    };
    lemma_castle_bits_clean(fs[2]);
    lemma_clean_info(turn, castle_bits(fs[2]), ep, digits_value(f4) as u64, digits_value(f5) as u64);
    lemma_fen_roundtrip(a);
}

proof fn lemma_bb_of_props(rows: Seq<Seq<char>>, p: int)
    ensures
        forall|t: int| #[trigger] bit(board_bb(rows, p), t) <==> 0 <= t < 64 && board_cell(rows, t) == Some(p),
{
    let pred = |t: int| board_cell(rows, t) == Some(p);
    let b = crate::bitboard::bb_of(pred);
    crate::bitboard::lemma_bb_of_exists(pred);
}


/// The piece found on a square depends on the piece boards alone.
proof fn lemma_top_piece_pieces(a: Seq<u64>, b: Seq<u64>, s: int, n: int)
    requires
        0 <= n <= 12,
        forall|p: int| 0 <= p < 12 ==> a[p] == b[p],
    ensures
        top_piece(a, s, n) == top_piece(b, s, n),
    decreases n,
{
    if n > 0 {
        lemma_top_piece_pieces(a, b, s, n - 1);
    }
}

/// The text of a row depends on the piece boards alone.
proof fn lemma_row_text_pieces(a: Seq<u64>, b: Seq<u64>, rank: int, file: int, empty: int)
    requires
        forall|p: int| 0 <= p < 12 ==> a[p] == b[p],
    ensures
        row_text_from(a, rank, file, empty) == row_text_from(b, rank, file, empty),
    decreases 8 - file,
{
    if file < 8 {
        lemma_top_piece_pieces(a, b, 63 - (rank * 8 + file), 12);
        lemma_row_text_pieces(a, b, rank, file + 1, 0);
        lemma_row_text_pieces(a, b, rank, file + 1, empty + 1);
    }
}

/// The board text depends on the piece boards alone.
proof fn lemma_board_text_pieces(a: Seq<u64>, b: Seq<u64>, rank: int)
    requires
        forall|p: int| 0 <= p < 12 ==> a[p] == b[p],
    ensures
        board_text_from(a, rank) == board_text_from(b, rank),
    decreases 8 - rank,
{
    if rank < 8 {
        lemma_row_text_pieces(a, b, rank, 0, 0);
        lemma_board_text_pieces(a, b, rank + 1);
    }
}

/// Writing the board of a position whose pieces stand on distinct squares and reading the
/// text back gives the same piece boards, whatever the colour boards held.
pub proof fn law_board_text_roundtrip(a: Seq<u64>)
    requires
        a.len() == 15,
        pieces_disjoint(a),
    ensures
        parse_board(board_text(a)) is Ok,
        forall|p: int| 0 <= p < 12 ==> #[trigger] (parse_board(board_text(a))->Ok_0)[p] == a[p],
{
    let b = a.update(12, white_of(a)).update(13, black_of(a));
    assert(white_of(b) == white_of(a) && black_of(b) == black_of(a));
    lemma_parse_board_text(b);
    reveal(board_text);
    lemma_board_text_pieces(a, b, 0);
}

/// A FEN text that reads, written back, reads as the same position, and writing that
/// position again gives the same text: the written text is a fixed point.
pub proof fn law_fen_text_is_canonical(s: Seq<char>)
    requires
        parse_fen(s) is Ok,
    ensures
        parse_fen(fen_text(parse_fen(s)->Ok_0)) == parse_fen(s),
        fen_text(parse_fen(fen_text(parse_fen(s)->Ok_0))->Ok_0) == fen_text(parse_fen(s)->Ok_0),
{
    lemma_parse_canonical(s);
}

proof fn lemma_castle_bits_rights(k1: bool, q1: bool, k2: bool, q2: bool)
    by (bit_vector)
    ensures
        ((if k1 { 0x200_0000_0000u64 } else { 0u64 }) | (if q1 { 0x400_0000_0000u64 } else { 0u64 })
            | (if k2 { 0x800_0000_0000u64 } else { 0u64 }) | (if q2 { 0x1000_0000_0000u64 } else {
            0u64
        })) & !0x1e00_0000_0000u64 == 0,
{
}

proof fn lemma_turn_bit(t: u64, c: u64, e: u64, h: u64, f: u64)
    by (bit_vector)
    requires
        t == 0x100_0000_0000u64 || t == 0,
        c & !0x1e00_0000_0000u64 == 0,
        e <= 64,
        h <= 65535,
        f <= 65535,
    ensures
        ((t | c | e | (h << 8u64) | (f << 24u64)) & 0x100_0000_0000u64 != 0) == (t != 0),
{
}

/// The side to move of a parsed position is white exactly when the turn field is `w`.
pub proof fn law_turn_field(s: Seq<char>)
    requires
        parse_fen(s) is Ok,
    ensures
        (parse_fen(s)->Ok_0[INFO as int] & TURN_FLAG != 0) == (ws_fields(s)[1] == seq!['w']),
{
    let fs = ws_fields(s);
    let c = castle_bits(fs[2]);
    lemma_castle_bits_rights(
        fs[2].contains('K'),
        fs[2].contains('Q'),
        fs[2].contains('k'),
        fs[2].contains('q'),
    );
    let ep: u64 = if fs[3] == seq!['-'] {
        64
    } else {
        lan_square(fs[3]) as u64
    };
    if fs[3] != seq!['-'] {
        assert(lan_square(fs[3]) < 64);
    }
    let t: u64 = if fs[1] == seq!['w'] {
        TURN_FLAG
    } else {
        0
    };
    lemma_turn_bit(t, c, ep, digits_value(fs[4]) as u64, digits_value(fs[5]) as u64);
}


/// Every digit of `row` is one of `1` to `8`, and no two digits stand side by side.
pub open spec fn row_digits_ok(row: Seq<char>) -> bool {
    &&& forall|i: int| 0 <= i < row.len() && is_digit(#[trigger] row[i]) ==> '1' <= row[i] <= '8'
    &&& forall|i: int|
        0 <= i < row.len() - 1 && is_digit(#[trigger] row[i]) ==> !is_digit(row[i + 1])
}

proof fn lemma_digits_ok_concat(x: Seq<char>, y: Seq<char>)
    requires
        row_digits_ok(x),
        row_digits_ok(y),
        x.len() > 0 ==> !is_digit(x.last()),
    ensures
        row_digits_ok(x + y),
{
    let z = x + y;
    assert forall|i: int| 0 <= i < z.len() && is_digit(#[trigger] z[i]) implies '1' <= z[i] <= '8' by {
        if i < x.len() {
            assert(z[i] == x[i]);
        } else {
            assert(z[i] == y[i - x.len()]);
        }
    }
    assert forall|i: int| 0 <= i < z.len() - 1 && is_digit(#[trigger] z[i]) implies !is_digit(
        z[i + 1],
    ) by {
        if i < x.len() - 1 {
            assert(z[i] == x[i] && z[i + 1] == x[i + 1]);
        } else if i == x.len() - 1 {
            assert(z[i] == x[i]);
        } else {
            assert(z[i] == y[i - x.len()] && z[i + 1] == y[i + 1 - x.len()]);
        }
    }
}

proof fn lemma_row_text_digits(a: Seq<u64>, rank: int, file: int, empty: int)
    requires
        0 <= empty <= file <= 8,
    ensures
        row_digits_ok(row_text_from(a, rank, file, empty)),
    decreases 8 - file,
{
    let prefix: Seq<char> = if empty > 0 {
        seq![digit_char(empty)]
    } else {
        Seq::empty()
    };
    if file >= 8 {
        assert(row_text_from(a, rank, file, empty) == prefix);
    } else {
        lemma_top_piece_range(a, 63 - (rank * 8 + file), 12);
        match top_piece(a, 63 - (rank * 8 + file), 12) {
            Some(p) => {
                lemma_piece_char_roundtrip(p);
                lemma_row_text_digits(a, rank, file + 1, 0);
                let head = prefix + seq![piece_char(p)];
                assert(row_digits_ok(head)) by {
                    assert forall|i: int| 0 <= i < head.len() - 1 && is_digit(#[trigger] head[i])
                        implies !is_digit(head[i + 1]) by {
                        assert(head[i + 1] == piece_char(p));
                    }
                }
                assert(head.last() == piece_char(p));
                lemma_digits_ok_concat(head, row_text_from(a, rank, file + 1, 0));
            },
            None => {
                lemma_row_text_digits(a, rank, file + 1, empty + 1);
            },
        }
    }
}

/// The board text has eight rows separated by `/`; each holds only piece letters and digits,
/// its digits are `1` to `8` and never two side by side, and its cells count eight squares.
pub proof fn law_board_text_rows(a: Seq<u64>)
    ensures
        split_on(board_text(a), '/').len() == 8,
        forall|r: int|
            0 <= r < 8 ==> {
                let row = #[trigger] split_on(board_text(a), '/')[r];
                &&& !row_bad_piece(row)
                &&& row_cells(row).len() == 8
                &&& row_digits_ok(row)
            },
{
    reveal(board_text);
    lemma_board_rows(a, 0);
    let rows = split_on(board_text(a), '/');
    assert(rows =~= Seq::new(8, |k: int| row_text_from(a, k, 0, 0)));
    lemma_rows_check(a, rows, 0);
    assert forall|r: int| 0 <= r < 8 implies !row_bad_piece(#[trigger] rows[r]) && row_cells(
        rows[r],
    ).len() == 8 by {
        lemma_rows_check_each(rows, 0, r);
    }
    assert forall|r: int| 0 <= r < 8 implies row_digits_ok(#[trigger] rows[r]) by {
        lemma_row_text_digits(a, r, 0, 0);
    }
}

/// When the rows check from `i` on passes, each row from `i` on is well formed.
proof fn lemma_rows_check_each(rows: Seq<Seq<char>>, i: int, r: int)
    requires
        0 <= i <= r < rows.len(),
        check_rows(rows, i) == Ok::<(), Seq<char>>(()),
    ensures
        !row_bad_piece(rows[r]),
        row_cells(rows[r]).len() == 8,
    decreases r - i,
{
    if i < r {
        lemma_rows_check_each(rows, i + 1, r);
    }
}

} // verus!
