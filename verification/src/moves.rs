use vstd::prelude::*;
use vstd::string::{StrSliceExecFns, StringSliceAdditionalSpecFns};
use vstd::utf8::{encode_utf8, is_char_boundary, is_ascii_chars};
use vstd::std_specs::bits::u64_trailing_zeros;
use crate::bitboard::{square_bb, lemma_trailing_zeros_single};
use crate::parsing::{
    file_char, rank_char, file_index, rank_index, square_name, bitboard_to_lan, lan_to_file,
    lan_to_rank,
};
use crate::text::{push_char, push_decimal, decimal};

verus! {

broadcast use vstd::string::group_string_axioms;

#[derive(Debug, Clone, Copy, PartialEq, Eq, Structural)]
pub enum Prom {
    NoProm,
    Queen,
    Bishop,
    Knight,
    Rook,
}

pub const MOVE_LENGTH_ERROR: &'static str = "Error: Move must have four or five characters";
pub const MOVE_SQUARES_ERROR: &'static str = "Error: Move must have valid squares";
pub const MOVE_PROMOTION_ERROR: &'static str = "Error: Promotion flag must be 'q', 'b', 'n' or 'r'";

/// The promotion named by a one-letter string.
pub open spec fn prom_from_chars(s: Seq<char>) -> Prom {
    if s == seq!['q'] {
        Prom::Queen
    } else if s == seq!['b'] {
        Prom::Bishop
    } else if s == seq!['n'] {
        Prom::Knight
    } else if s == seq!['r'] {
        Prom::Rook
    } else {
        Prom::NoProm
    }
}

/// The letter of a promotion; empty for no promotion.
pub open spec fn prom_chars(p: Prom) -> Seq<char> {
    match p {
        Prom::Queen => seq!['q'],
        Prom::Bishop => seq!['b'],
        Prom::Knight => seq!['n'],
        Prom::Rook => seq!['r'],
        Prom::NoProm => seq![],
    }
}

/// The flag bits of a promotion in a move code.
pub open spec fn prom_bits(p: Prom) -> u16 {
    match p {
        Prom::Queen => 0x1000,
        Prom::Bishop => 0x2000,
        Prom::Knight => 0x4000,
        Prom::Rook => 0x8000,
        Prom::NoProm => 0,
    }
}

impl Prom {
    /// Reads a promotion letter (`q`, `b`, `n`, `r`; anything else is no promotion).
    pub fn from_str(str: &str) -> (res: Self)
        ensures
            res == prom_from_chars(str@),
    {
        if str.unicode_len() != 1 {
            assert(str@ != seq!['q'] && str@ != seq!['b'] && str@ != seq!['n'] && str@ != seq!['r']);
            return Self::NoProm;
        }
        let c = str.get_char(0);
        assert(str@ =~= seq![c]);
        match c {
            'q' => Self::Queen,
            'b' => Self::Bishop,
            'n' => Self::Knight,
            'r' => Self::Rook,
            _ => Self::NoProm,
        }
    }

    /// The promotion letter (empty for no promotion).
    pub fn to_string(&self) -> (res: String)
        ensures
            res@ == prom_chars(*self),
    {
        let mut res = String::new();
        match self {
            Self::Queen => push_char(&mut res, 'q'),
            Self::Bishop => push_char(&mut res, 'b'),
            Self::Knight => push_char(&mut res, 'n'),
            Self::Rook => push_char(&mut res, 'r'),
            Self::NoProm => {},
        }
        res
    }
}

/// The move code built from the lowest squares `f` and `t` of the from and to bitboards.
pub open spec fn code_of(f: u32, t: u32) -> u16 {
    ((f as u16) | ((t << 6u32) as u16)) as u16
}

/// The code of a move from square `from` to square `to`, without promotion.
pub open spec fn move_code(from: int, to: int) -> u16 {
    (from + to * 64) as u16
}

/// The from square of a move code.
pub open spec fn from_sq(m: u16) -> int {
    (m & 0x3f) as int
}

/// The to square of a move code.
pub open spec fn to_sq(m: u16) -> int {
    ((m & 0xfc0) >> 6u16) as int
}

/// The promotion of a move code.
pub open spec fn prom_of(m: u16) -> Prom {
    let p = (m & 0xf000) >> 12u16;
    if p == 1 {
        Prom::Queen
    } else if p == 2 {
        Prom::Bishop
    } else if p == 4 {
        Prom::Knight
    } else if p == 8 {
        Prom::Rook
    } else {
        Prom::NoProm
    }
}

/// The name of a square index.
pub open spec fn square_chars(s: int) -> Seq<char> {
    seq![file_char(s % 8), rank_char(s / 8)]
}

/// The long algebraic name of a move code.
pub open spec fn move_name(m: u16) -> Seq<char> {
    square_chars(from_sq(m)) + square_chars(to_sq(m)) + prom_chars(prom_of(m))
}

proof fn lemma_code_raw(f: u16, t: u16, p: u16)
    by (bit_vector)
    requires
        f < 64,
        t < 64,
        p == 0 || p == 0x1000 || p == 0x2000 || p == 0x4000 || p == 0x8000,
    ensures
        (f | ((t as u32) << 6u32) as u16) == ((f + t * 64) as u16),
        ((((f + t * 64) as u16) | p) & 0x3f) == f,
        (((((f + t * 64) as u16) | p) & 0xfc0) >> 6u16) == t,
        (((((f + t * 64) as u16) | p) & 0xf000) >> 12u16) == (p >> 12u16),
{
}

/// Codes of moves between squares decode to their squares and promotion.
pub proof fn lemma_move_code(f: int, t: int, p: Prom)
    requires
        0 <= f < 64,
        0 <= t < 64,
    ensures
        code_of(f as u32, t as u32) == move_code(f, t),
        from_sq(move_code(f, t) | prom_bits(p)) == f,
        to_sq(move_code(f, t) | prom_bits(p)) == t,
        prom_of(move_code(f, t) | prom_bits(p)) == p,
        move_code(f, t) | prom_bits(Prom::NoProm) == move_code(f, t),
{
    lemma_code_raw(f as u16, t as u16, prom_bits(p));
    lemma_code_raw(f as u16, t as u16, 0);
    assert((f as u16) as u32 == f as u32);
    assert(move_code(f, t) == (f as u16) + (t as u16) * 64) by {
        assert(f + t * 64 < 65536);
    }
    assert(0u16 >> 12u16 == 0) by (bit_vector);
    assert(0x1000u16 >> 12u16 == 1 && 0x2000u16 >> 12u16 == 2 && 0x4000u16 >> 12u16 == 4
        && 0x8000u16 >> 12u16 == 8) by (bit_vector);
    assert(move_code(f, t) | 0 == move_code(f, t)) by {
        let m = move_code(f, t);
        assert(m | 0 == m) by (bit_vector);
    }
}

proof fn lemma_single_char_seq(a: char, b: char)
    ensures
        (seq![a] == seq![b]) <==> a == b,
{
    if seq![a] == seq![b] {
        assert(seq![a][0] == seq![b][0]);
    }
}

pub(crate) proof fn lemma_move_fields(m: u16)
    by (bit_vector)
    ensures
        m & 0x3f < 64,
        (m & 0xfc0) >> 6u16 < 64,
{
}

#[derive(Debug, Clone, Copy, PartialEq, Eq, Structural)]
pub struct Move {
    pub move1: u16,
}

impl View for Move {
    type V = u16;

    open spec fn view(&self) -> u16 {
        self.move1
    }
}

/// The result of parsing a move in long algebraic notation.
pub open spec fn ascii_lower(c: char) -> char {
    if 'A' <= c <= 'Z' {
        ((c as int) + 32) as char
    } else {
        c
    }
}

pub open spec fn lower_chars(s: Seq<char>) -> Seq<char> {
    s.map_values(|c: char| ascii_lower(c))
}

pub open spec fn square_of_chars(c0: char, c1: char) -> int {
    rank_index(c1) * 8 + file_index(c0)
}

pub open spec fn valid_square_chars(c0: char, c1: char) -> bool {
    file_index(c0) != usize::MAX && rank_index(c1) != usize::MAX
}

/// A text of fewer than four characters but four or five bytes holds a character beyond
/// ASCII among them, which is neither a file letter nor a rank digit: it reads as a square
/// error.
proof fn lemma_short_move_text(n: usize, s: Seq<char>)
    requires
        encode_utf8(s).len() as usize == n,
        n == 4 || n == 5,
        s.len() < 4,
    ensures
        parse_move(n, s) == Err::<u16, Seq<char>>(MOVE_SQUARES_ERROR@),
{
    if is_ascii_chars(s) {
        vstd::utf8::is_ascii_chars_encode_utf8(s);
        assert(false);
    }
    let k = choose|k: int| 0 <= k < s.len() && !('\0' <= #[trigger] s[k] <= '\u{7f}');
    let l = lower_chars(s);
    assert(l[k] == s[k]);
    assert(file_index(l[k]) == usize::MAX && rank_index(l[k]) == usize::MAX);
}

/// Four characters that name two squares take four bytes, so a five-byte move text whose
/// first four characters name squares has a fifth character.
proof fn lemma_five_byte_move_text(s: Seq<char>)
    requires
        s.len() >= 4,
        encode_utf8(s).len() as usize == 5,
        valid_square_chars(lower_chars(s)[0], lower_chars(s)[1]),
        valid_square_chars(lower_chars(s)[2], lower_chars(s)[3]),
    ensures
        s.len() >= 5,
{
    if s.len() == 4 {
        let l = lower_chars(s);
        assert forall|k: int| 0 <= k < 4 implies '\0' <= #[trigger] s[k] <= '\u{7f}' by {
            assert(l[k] == ascii_lower(s[k]));
        }
        assert(is_ascii_chars(s));
        vstd::utf8::is_ascii_chars_encode_utf8(s);
    }
}

/// What parsing `lan` gives: the move, or the message of the error.
pub open spec fn parse_move(byte_len: usize, lan: Seq<char>) -> Result<u16, Seq<char>> {
    let l = lower_chars(lan);
    if byte_len != 4 && byte_len != 5 {
        Err(MOVE_LENGTH_ERROR@)
    } else if !valid_square_chars(l[0], l[1]) || !valid_square_chars(l[2], l[3]) {
        Err(MOVE_SQUARES_ERROR@)
    } else if byte_len == 4 {
        Ok(move_code(square_of_chars(l[0], l[1]), square_of_chars(l[2], l[3])))
    } else if l[4] != 'q' && l[4] != 'b' && l[4] != 'n' && l[4] != 'r' {
        Err(MOVE_PROMOTION_ERROR@)
    } else {
        Ok(
            move_code(square_of_chars(l[0], l[1]), square_of_chars(l[2], l[3])) | prom_bits(
                prom_from_chars(seq![l[4]]),
            ),
        )
    }
}

fn lower_char(c: char) -> (res: char)
    ensures
        res == ascii_lower(c),
{
    if 'A' <= c && c <= 'Z' {
        let v: u32 = c as u32;
        let l: u8 = (v + 32) as u8;
        l as char
    } else {
        c
    }
}

impl Move {
    /// The move from square `from` to square `to`.
    pub fn new(from: u64, to: u64) -> (res: Self)
        ensures
            res.move1 == code_of(u64_trailing_zeros(from), u64_trailing_zeros(to)),
    {
        let from_move: u16 = from.trailing_zeros() as u16;
        let to_move: u16 = (to.trailing_zeros() << 6) as u16;
        let move1 = from_move | to_move;

        Self { move1 }
    }

    /// The move from square `from` to square `to` promoting to `prom`.
    pub fn new_with_prom(from: u64, to: u64, prom: Prom) -> (res: Self)
        ensures
            res.move1 == code_of(u64_trailing_zeros(from), u64_trailing_zeros(to)) | prom_bits(
                prom,
            ),
    {
        let from_move: u16 = from.trailing_zeros() as u16;
        let to_move: u16 = (to.trailing_zeros() << 6) as u16;

        let prom_move: u16 = match prom {
            Prom::Queen => 1u16 << 12,
            Prom::Bishop => 1u16 << 13,
            Prom::Knight => 1u16 << 14,
            Prom::Rook => 1u16 << 15,
            Prom::NoProm => 0,
        };
        assert(1u16 << 12u16 == 0x1000 && 1u16 << 13u16 == 0x2000 && 1u16 << 14u16 == 0x4000 && 1u16
            << 15u16 == 0x8000) by (bit_vector);

        let move1 = from_move | to_move | prom_move;

        Self { move1 }
    }

    /// The move from a square index to a square index, with a promotion.
    pub fn from_squares(from: usize, to: usize, prom: Prom) -> (res: Self)
        requires
            from < 64,
            to < 64,
        ensures
            res.move1 == move_code(from as int, to as int) | prom_bits(prom),
    {
        proof {
            lemma_trailing_zeros_single(from as int);
            lemma_trailing_zeros_single(to as int);
            lemma_move_code(from as int, to as int, prom);
        }
        Self::new_with_prom(1u64 << from, 1u64 << to, prom)
    }

    /// The move code 0, which stands for no move.
    pub fn empty() -> (res: Self)
        ensures
            res.move1 == 0,
    {
        Self { move1: 0u16 }
    }

    /// The square the move goes to.
    pub fn get_to(&self) -> (res: u64)
        ensures
            res == square_bb(to_sq(self.move1)),
    {
        let shift = (self.move1 & 0b0000111111000000) >> 6;
        proof {
            lemma_move_fields(self.move1);
        }
        1u64 << shift
    }

    /// The square the move starts from.
    pub fn get_from(&self) -> (res: u64)
        ensures
            res == square_bb(from_sq(self.move1)),
    {
        let shift = self.move1 & 0b0000000000111111;
        proof {
            lemma_move_fields(self.move1);
        }
        1u64 << shift
    }

    /// The piece the move promotes to.
    pub fn get_prom(&self) -> (res: Prom)
        ensures
            res == prom_of(self.move1),
    {
        let prom_move = (self.move1 & 0b1111000000000000) >> 12;

        match prom_move {
            0b1 => Prom::Queen,
            0b10 => Prom::Bishop,
            0b100 => Prom::Knight,
            0b1000 => Prom::Rook,
            _ => Prom::NoProm,
        }
    }

    /// Reads a move in long algebraic notation, letters in either case. A text of four or five
    /// bytes is cut into squares after its second and fourth bytes, which must therefore fall
    /// between characters.
    pub fn from_str(lan: &str) -> (res: Result<Self, String>)
        requires
            lan.len() == 4 || lan.len() == 5 ==> is_char_boundary(encode_utf8(lan@), 2)
                && is_char_boundary(encode_utf8(lan@), 4),
        ensures
            res matches Ok(m) ==> parse_move(lan.len(), lan@) == Ok::<u16, Seq<char>>(m.move1),
            res matches Err(e) ==> parse_move(lan.len(), lan@) == Err::<u16, Seq<char>>(e@),
    {
        let n = lan.len();
        if n != 4 && n != 5 {
            return Err(MOVE_LENGTH_ERROR.to_string());
        }
        let cn = lan.unicode_len();
        if cn < 4 {
            proof {
                lemma_short_move_text(n, lan@);
            }
            return Err(MOVE_SQUARES_ERROR.to_string());
        }
        let c0 = lower_char(lan.get_char(0));
        let c1 = lower_char(lan.get_char(1));
        let c2 = lower_char(lan.get_char(2));
        let c3 = lower_char(lan.get_char(3));
        let ghost l = lower_chars(lan@);
        assert(l[0] == c0 && l[1] == c1 && l[2] == c2 && l[3] == c3);

        let f0 = lan_to_file(c0);
        let r0 = lan_to_rank(c1);
        let f1 = lan_to_file(c2);
        let r1 = lan_to_rank(c3);
        if f0 == usize::MAX || r0 == usize::MAX || f1 == usize::MAX || r1 == usize::MAX {
            return Err(MOVE_SQUARES_ERROR.to_string());
        }
        let from = r0 * 8 + f0;
        let to = r1 * 8 + f1;
        proof {
            lemma_move_code(from as int, to as int, Prom::NoProm);
            lemma_move_code(from as int, to as int, Prom::Queen);
            lemma_move_code(from as int, to as int, Prom::Bishop);
            lemma_move_code(from as int, to as int, Prom::Knight);
            lemma_move_code(from as int, to as int, Prom::Rook);
        }

        if n == 4 {
            return Ok(Self::from_squares(from, to, Prom::NoProm));
        }
        proof {
            lemma_five_byte_move_text(lan@);
        }
        let c4 = lower_char(lan.get_char(4));
        assert(l[4] == c4);
        if c4 != 'q' && c4 != 'b' && c4 != 'n' && c4 != 'r' {
            return Err(MOVE_PROMOTION_ERROR.to_string());
        }
        proof {
            lemma_single_char_seq(c4, 'q');
            lemma_single_char_seq(c4, 'b');
            lemma_single_char_seq(c4, 'n');
            lemma_single_char_seq(c4, 'r');
        }
        let prom = if c4 == 'q' {
            Prom::Queen
        } else if c4 == 'b' {
            Prom::Bishop
        } else if c4 == 'n' {
            Prom::Knight
        } else {
            Prom::Rook
        };
        Ok(Self::from_squares(from, to, prom))
    }

    /// The move in long algebraic notation, such as `e2e4` or `e7e8q`.
    pub fn to_string(&self) -> (res: String)
        ensures
            res@ == move_name(self.move1),
    {
        let from = self.get_from();
        let to = self.get_to();
        let prom = self.get_prom();
        proof {
            lemma_move_fields(self.move1);
            lemma_trailing_zeros_single(from_sq(self.move1));
            lemma_trailing_zeros_single(to_sq(self.move1));
        }
        let mut res = bitboard_to_lan(from);
        let t = bitboard_to_lan(to);
        let p = prom.to_string();
        crate::text::push_chars(&mut res, &crate::text::str_to_chars(t.as_str()));
        crate::text::push_chars(&mut res, &crate::text::str_to_chars(p.as_str()));
        assert(res@ =~= move_name(self.move1));
        res
    }
}

/// The listing of moves: each move's name followed by a comma and a space.
pub open spec fn moves_text(codes: Seq<u16>) -> Seq<char>
    decreases codes.len(),
{
    if codes.len() == 0 {
        Seq::empty()
    } else {
        moves_text(codes.drop_last()) + move_name(codes.last()) + seq![',', ' ']
    }
}

/// The lines of a perft listing: each move's name, a colon and its count.
pub open spec fn perft_lines(codes: Seq<u16>, counts: Seq<usize>) -> Seq<char>
    decreases codes.len(),
{
    if codes.len() == 0 {
        Seq::empty()
    } else {
        perft_lines(codes.drop_last(), counts) + move_name(codes.last()) + seq![':', ' '] + decimal(
            counts[codes.len() - 1] as nat,
        ) + seq!['\n']
    }
}

/// A perft listing: the lines of the moves, then the total.
pub open spec fn perft_text(codes: Seq<u16>, counts: Seq<usize>, total: usize) -> Seq<char> {
    perft_lines(codes, counts) + seq!['T', 'o', 't', 'a', 'l', ':', ' '] + decimal(total as nat)
}

/// A list of moves: the first `size` entries of `array`.
#[derive(Debug, Clone)]
pub struct Moves {
    pub array: Vec<Move>,
    pub size: usize,
}

impl Moves {
    pub open spec fn wf(&self) -> bool {
        self.size <= self.array.len()
    }

    /// The list holds no entry past its size.
    pub open spec fn tight(&self) -> bool {
        self.array@.len() == self.size
    }

    /// The codes of the moves in the list, in order.
    pub open spec fn codes(&self) -> Seq<u16> {
        self.array@.take(self.size as int).map_values(|m: Move| m.move1)
    }

    /// A list holding the first `size` moves of `array`.
    pub fn new(array: Vec<Move>, size: usize) -> (res: Self)
        ensures
            res.array@ == array@,
            res.size == size,
    {
        Self { array, size }
    }

    /// An empty list of moves.
    pub fn empty() -> (res: Self)
        ensures
            res.wf(),
            res.size == 0,
            res.array@.len() == 0,
            res.codes() == Seq::<u16>::empty(),
            res.tight(),
    {
        let array = Vec::new();
        let size: usize = 0;
        let res = Self { array, size };
        assert(res.codes() =~= Seq::<u16>::empty());
        res
    }

    /// The moves in long algebraic notation, each followed by a comma and a space.
    pub fn to_string(&self) -> (res: String)
        requires
            self.wf(),
        ensures
            res@ == moves_text(self.codes()),
    {
        let mut result = String::new();

        for i in 0..self.size
            invariant
                self.wf(),
                result@ == moves_text(self.codes().take(i as int)),
        {
            let move1 = self.array[i];
            let text = move1.to_string();
            crate::text::push_chars(&mut result, &crate::text::str_to_chars(text.as_str()));
            push_char(&mut result, ',');
            push_char(&mut result, ' ');
            assert(self.codes().take(i + 1).drop_last() =~= self.codes().take(i as int));
            assert(result@ =~= moves_text(self.codes().take(i + 1)));
        }
        assert(self.codes().take(self.size as int) =~= self.codes());
        result
    }

    /// Appends a move to the list.
    pub fn add(&mut self, move1: Move)
        requires
            old(self).wf(),
            old(self).size < usize::MAX,
        ensures
            final(self).wf(),
            final(self).size == old(self).size + 1,
            final(self).codes() == old(self).codes().push(move1.move1),
            final(self).array@ == (if old(self).size < old(self).array@.len() {
                old(self).array@.update(old(self).size as int, move1)
            } else {
                old(self).array@.push(move1)
            }),
    {
        if self.size < self.array.len() {
            self.array.set(self.size, move1);
        } else {
            self.array.push(move1);
        }
        self.size += 1;
        assert(self.codes() =~= old(self).codes().push(move1.move1));
    }
}

#[derive(Debug, Clone)]
pub struct PerftResult {
    pub moves: Moves,
    pub counts: Vec<usize>,
    pub total: usize,
}

impl PerftResult {
    /// A perft result from its moves, the count under each move, and the total.
    pub fn new(moves: Moves, counts: Vec<usize>, total: usize) -> (res: Self)
        ensures
            res.moves == moves,
            res.counts@ == counts@,
            res.total == total,
    {
        Self { moves, counts, total }
    }

    /// An empty perft result.
    pub fn empty() -> (res: Self)
        ensures
            res.moves.wf(),
            res.moves.size == 0,
            res.moves.array@.len() == 0,
            res.counts@.len() == 0,
            res.total == 0,
    {
        let moves = Moves::empty();
        let counts = Vec::new();
        let total: usize = 0;

        Self { moves, counts, total }
    }

    /// One line per move with its count, then the total.
    pub fn to_string(&self) -> (res: String)
        requires
            self.moves.wf(),
            self.counts@.len() >= self.moves.size,
        ensures
            res@ == perft_text(self.moves.codes(), self.counts@, self.total),
    {
        let mut result = String::new();

        for i in 0..self.moves.size
            invariant
                self.moves.wf(),
                self.counts@.len() >= self.moves.size,
                result@ == perft_lines(self.moves.codes().take(i as int), self.counts@),
        {
            let move1 = self.moves.array[i];
            let count = self.counts[i];
            let text = move1.to_string();
            crate::text::push_chars(&mut result, &crate::text::str_to_chars(text.as_str()));
            push_char(&mut result, ':');
            push_char(&mut result, ' ');
            push_decimal(&mut result, count as u64);
            push_char(&mut result, '\n');
            assert(self.moves.codes().take(i + 1).drop_last() =~= self.moves.codes().take(i as int));
            assert(result@ =~= perft_lines(self.moves.codes().take(i + 1), self.counts@));
        }
        assert(self.moves.codes().take(self.moves.size as int) =~= self.moves.codes());
        push_char(&mut result, 'T');
        push_char(&mut result, 'o');
        push_char(&mut result, 't');
        push_char(&mut result, 'a');
        push_char(&mut result, 'l');
        push_char(&mut result, ':');
        push_char(&mut result, ' ');
        push_decimal(&mut result, self.total as u64);
        assert(result@ =~= perft_text(self.moves.codes(), self.counts@, self.total));
        result
    }
}

} // verus!
