//! The decisions of the command line: what a line of input does to the position and what is
//! shown in reply. Reading, printing and the loop itself stay with the caller.
use vstd::prelude::*;
use vstd::string::{StrSliceExecFns, StringSliceAdditionalSpecFns};
use vstd::utf8::{encode_utf8, decode_utf8, is_char_boundary};
use crate::board::default_array;
use crate::fen::{Fen, has_own_king, make_move_spec};
use crate::moves::{Move, PerftResult, moves_text, parse_move, perft_text};
use crate::movegen::legal_moves;
use crate::parsing::{fen_parse_stops, parse_fen, fen_text, ws_fields, split_whitespace_chars,
    string_to_fen_stops, usize_value, parse_usize_chars};
use crate::perft::{perft_count, perft_sum, perft_root_safe, checked_perft, counts_sum};
use crate::text::str_to_chars;

verus! {

broadcast use vstd::string::group_string_axioms;

pub const PERFT_ARGUMENTS_ERROR: &'static str = "Error: Perft requires 1 or 2 arguments";

pub const DEPTH_ERROR: &'static str = "Error: Depth must be a positive integer";

/// What the command line does after a line of input in the position mode.
#[derive(Clone, Copy, PartialEq, Eq, Structural, Debug)]
pub enum ReplyKind {
    /// Show the diagram of the position.
    Board,
    /// Show the text of the reply.
    Text,
    /// Leave the position mode for the menu.
    Back,
    /// Quit.
    Quit,
    /// Stop: the input reaches a step that cannot complete.
    Stop,
    /// Show nothing.
    Nothing,
}

/// The reply to a line of input: what to do, and the text to show for `ReplyKind::Text`
/// (empty otherwise).
pub struct FenReply {
    pub kind: ReplyKind,
    pub text: String,
}

/// `s` begins with `p`.
pub open spec fn starts_with(s: Seq<char>, p: Seq<char>) -> bool {
    s.len() >= p.len() && s.take(p.len() as int) == p
}

/// The characters of `s` after its first `n` bytes.
pub open spec fn rest_after(s: Seq<char>, n: int) -> Seq<char> {
    decode_utf8(encode_utf8(s).subrange(n, encode_utf8(s).len() as int))
}

/// The perft counts of the moves of `x`, one level down each.
pub open spec fn perft_counts(d: int, x: Seq<u64>) -> Seq<usize> {
    Seq::new(
        legal_moves(x).len(),
        |i: int| perft_count(d, make_move_spec(x, legal_moves(x)[i])) as usize,
    )
}

/// The perft listing at depth `d` of position `x`, when perft completes there.
pub open spec fn perft_listing(d: int, x: Seq<u64>) -> Option<Seq<char>> {
    if perft_root_safe(d, x) && perft_sum(d, x, legal_moves(x)) <= usize::MAX {
        Some(perft_text(legal_moves(x), perft_counts(d, x), perft_sum(d, x, legal_moves(x)) as usize))
    } else {
        None
    }
}

/// The fields `fs` joined by single spaces.
pub open spec fn join_fields(fs: Seq<Seq<char>>) -> Seq<char>
    decreases fs.len(),
{
    if fs.len() == 0 {
        Seq::empty()
    } else if fs.len() == 1 {
        fs[0]
    } else {
        join_fields(fs.drop_last()) + seq![' '] + fs.last()
    }
}

/// The FEN text of a perft command with a position: its middle fields, joined by spaces (one
/// field for a command of three fields, six for a command of eight).
pub open spec fn perft_fen_text(fs: Seq<Seq<char>>) -> Seq<char> {
    join_fields(fs.subrange(1, fs.len() - 1))
}

/// The reply to a perft command with white-space separated fields `fs`, in position `a`:
/// `perft [depth]` counts in the current position, `perft [FEN] [depth]` in the given one, and
/// the depth must be a positive integer.
pub open spec fn perft_reply(a: Seq<u64>, fs: Seq<Seq<char>>) -> (ReplyKind, Seq<char>) {
    if fs.len() != 2 && fs.len() != 3 && fs.len() != 8 {
        (ReplyKind::Text, PERFT_ARGUMENTS_ERROR@)
    } else {
        match usize_value(fs.last()) {
            None => (ReplyKind::Text, DEPTH_ERROR@),
            Some(d) => if d == 0 {
                (ReplyKind::Text, DEPTH_ERROR@)
            } else if fs.len() != 2 && fen_parse_stops(perft_fen_text(fs)) {
                (ReplyKind::Stop, Seq::empty())
            } else if fs.len() != 2 && parse_fen(perft_fen_text(fs)) is Err {
                (ReplyKind::Text, parse_fen(perft_fen_text(fs))->Err_0)
            } else {
                let x = if fs.len() == 2 {
                    a
                } else {
                    parse_fen(perft_fen_text(fs))->Ok_0
                };
                match perft_listing(d as int, x) {
                    Some(t) => (ReplyKind::Text, t),
                    None => (ReplyKind::Stop, Seq::empty()),
                }
            },
        }
    }
}

/// What a line of input `s` does in the position mode with position `a`: the position after
/// it, what to do, and the text to show.
pub open spec fn fen_command_outcome(a: Seq<u64>, s: Seq<char>) -> (Seq<u64>, ReplyKind, Seq<char>) {
    let b = encode_utf8(s);
    if s == "pos default"@ {
        (default_array(), ReplyKind::Board, Seq::empty())
    } else if starts_with(s, "pos"@) {
        if !is_char_boundary(b, 4) {
            (a, ReplyKind::Stop, Seq::empty())
        } else if fen_parse_stops(rest_after(s, 4)) {
            (a, ReplyKind::Stop, Seq::empty())
        } else {
            match parse_fen(rest_after(s, 4)) {
                Ok(x) => (x, ReplyKind::Board, Seq::empty()),
                Err(e) => (a, ReplyKind::Text, e),
            }
        }
    } else if starts_with(s, "move "@) {
        let n = (b.len() - 5) as usize;
        if !is_char_boundary(b, 5) {
            (a, ReplyKind::Stop, Seq::empty())
        } else if (n == 4 || n == 5) && !(is_char_boundary(encode_utf8(rest_after(s, 5)), 2)
            && is_char_boundary(encode_utf8(rest_after(s, 5)), 4)) {
            (a, ReplyKind::Stop, Seq::empty())
        } else {
            match parse_move(n, rest_after(s, 5)) {
                Ok(m) => (make_move_spec(a, m), ReplyKind::Board, Seq::empty()),
                Err(e) => (a, ReplyKind::Text, e),
            }
        }
    } else if s == "moves"@ {
        if has_own_king(a) {
            (a, ReplyKind::Text, moves_text(legal_moves(a)))
        } else {
            (a, ReplyKind::Stop, Seq::empty())
        }
    } else if starts_with(s, "perft"@) {
        let r = perft_reply(a, ws_fields(s));
        (a, r.0, r.1)
    } else if s == "string"@ {
        (a, ReplyKind::Text, fen_text(a))
    } else if s == "board"@ {
        (a, ReplyKind::Board, Seq::empty())
    } else if s == "return"@ {
        (a, ReplyKind::Back, Seq::empty())
    } else if s == "quit"@ {
        (a, ReplyKind::Quit, Seq::empty())
    } else {
        (a, ReplyKind::Nothing, Seq::empty())
    }
}

/// Whether the characters `s` spell `lit`.
fn chars_are_str(s: &Vec<char>, lit: &str) -> (res: bool)
    ensures
        res == (s@ == lit@),
{
    let n = lit.unicode_len();
    if s.len() != n {
        return false;
    }
    for i in 0..n
        invariant
            n == lit@.len(),
            s@.len() == n,
            forall|k: int| 0 <= k < i ==> s@[k] == lit@[k],
    {
        if s[i] != lit.get_char(i) {
            return false;
        }
    }
    assert(s@ =~= lit@);
    true
}

/// Whether the characters `s` begin with `lit`.
fn chars_start_with(s: &Vec<char>, lit: &str) -> (res: bool)
    ensures
        res == starts_with(s@, lit@),
{
    let n = lit.unicode_len();
    if s.len() < n {
        return false;
    }
    for i in 0..n
        invariant
            n == lit@.len(),
            s@.len() >= n,
            forall|k: int| 0 <= k < i ==> s@[k] == lit@[k],
    {
        if s[i] != lit.get_char(i) {
            assert(s@.take(n as int)[i as int] != lit@[i as int]);
            return false;
        }
    }
    assert(s@.take(n as int) =~= lit@);
    true
}

/// The FEN text of a perft command with a position: its middle fields joined by spaces.
fn perft_fen_chars(fields: &Vec<Vec<char>>) -> (res: Vec<char>)
    requires
        fields@.len() == 3 || fields@.len() == 8,
    ensures
        res@ == perft_fen_text(fields@.map_values(|f: Vec<char>| f@)),
{
    let ghost fs = fields@.map_values(|f: Vec<char>| f@);
    let mut res: Vec<char> = Vec::new();
    let end = fields.len() - 1;
    for i in 1..end
        invariant
            fields@.len() == 3 || fields@.len() == 8,
            end == fields@.len() - 1,
            fs == fields@.map_values(|f: Vec<char>| f@),
            res@ == join_fields(fs.subrange(1, i as int)),
    {
        let ghost before = res@;
        if i > 1 {
            res.push(' ');
        }
        let field = &fields[i];
        for k in 0..field.len()
            invariant
                res@ == before + (if i > 1 { seq![' '] } else { Seq::empty() }) + field@.take(
                    k as int,
                ),
        {
            res.push(field[k]);
            assert(field@.take(k + 1) =~= field@.take(k as int).push(field@[k as int]));
        }
        proof {
            assert(field@.take(field@.len() as int) =~= field@);
            assert(fs[i as int] == field@);
            let next = fs.subrange(1, i + 1);
            assert(next.drop_last() =~= fs.subrange(1, i as int));
            assert(next.last() == fs[i as int]);
            if i == 1 {
                assert(next.len() == 1);
                assert(res@ =~= join_fields(next));
            } else {
                assert(join_fields(next) == join_fields(next.drop_last()) + seq![' '] + next.last());
                assert(res@ =~= join_fields(next));
            }
        }
    }
    res
}

/// The reply to a perft command whose white-space separated fields are `fields`.
fn perft_command(fen: &Fen, fields: &Vec<Vec<char>>) -> (res: FenReply)
    ensures
        res.kind == perft_reply(fen@, fields@.map_values(|f: Vec<char>| f@)).0,
        res.text@ == perft_reply(fen@, fields@.map_values(|f: Vec<char>| f@)).1,
{
    let ghost fs = fields@.map_values(|f: Vec<char>| f@);
    if fields.len() != 2 && fields.len() != 3 && fields.len() != 8 {
        return FenReply { kind: ReplyKind::Text, text: PERFT_ARGUMENTS_ERROR.to_string() };
    }
    assert(fs.last() == fields@[fields@.len() - 1]@);
    let depth = match parse_usize_chars(&fields[fields.len() - 1]) {
        None => {
            return FenReply { kind: ReplyKind::Text, text: DEPTH_ERROR.to_string() };
        },
        Some(d) => d,
    };
    if depth == 0 {
        return FenReply { kind: ReplyKind::Text, text: DEPTH_ERROR.to_string() };
    }
    let position = if fields.len() == 2 {
        fen.clone_position()
    } else {
        let chars = perft_fen_chars(fields);
        let text: String = crate::text::chars_to_string(&chars);
        if string_to_fen_stops(text.as_str()) {
            return FenReply { kind: ReplyKind::Stop, text: String::new() };
        }
        match Fen::from_str(text.as_str()) {
            Ok(f) => f,
            Err(e) => {
                return FenReply { kind: ReplyKind::Text, text: e };
            },
        }
    };
    match checked_perft(depth, &position) {
        None => FenReply { kind: ReplyKind::Stop, text: String::new() },
        Some(r) => {
            proof {
                assert(r.counts@ =~= perft_counts(depth as int, position@));
            }
            FenReply { kind: ReplyKind::Text, text: r.to_string() }
        },
    }
}

/// What a line of input does in the position mode: the position after it and the reply.
pub fn fen_command(fen: &Fen, input: &str) -> (res: (Fen, FenReply))
    ensures
        res.0@ == fen_command_outcome(fen@, input@).0,
        res.1.kind == fen_command_outcome(fen@, input@).1,
        res.1.text@ == fen_command_outcome(fen@, input@).2,
{
    let s = str_to_chars(input);
    let ghost b = encode_utf8(input@);
    assert(input.spec_bytes() == b);
    proof {
        vstd::utf8::encode_utf8_valid_utf8(input@);
    }
    let keep = fen.clone_position();
    if chars_are_str(&s, "pos default") {
        return (Fen::new(), FenReply { kind: ReplyKind::Board, text: String::new() });
    }
    if chars_start_with(&s, "pos") {
        if !input.is_char_boundary(4) {
            return (keep, FenReply { kind: ReplyKind::Stop, text: String::new() });
        }
        let (_, fen_str) = input.split_at(4);
        assert(fen_str@ == rest_after(input@, 4)) by {
            vstd::utf8::encode_utf8_decode_utf8(fen_str@);
        }
        if string_to_fen_stops(fen_str) {
            return (keep, FenReply { kind: ReplyKind::Stop, text: String::new() });
        }
        return match Fen::from_str(fen_str) {
            Ok(new_fen) => (new_fen, FenReply { kind: ReplyKind::Board, text: String::new() }),
            Err(error) => (keep, FenReply { kind: ReplyKind::Text, text: error }),
        };
    }
    if chars_start_with(&s, "move ") {
        if !input.is_char_boundary(5) {
            return (keep, FenReply { kind: ReplyKind::Stop, text: String::new() });
        }
        let (_, lan) = input.split_at(5);
        assert(lan@ == rest_after(input@, 5)) by {
            vstd::utf8::encode_utf8_decode_utf8(lan@);
        }
        let n = lan.len();
        assert(b.len() >= 5);
        assert(lan.spec_bytes() =~= b.subrange(5, b.len() as int));
        assert(n == (b.len() - 5) as usize);
        if (n == 4 || n == 5) && !(lan.is_char_boundary(2) && lan.is_char_boundary(4)) {
            return (keep, FenReply { kind: ReplyKind::Stop, text: String::new() });
        }
        return match Move::from_str(lan) {
            Ok(move1) => {
                let mut next = fen.clone_position();
                next.make_move(move1);
                (next, FenReply { kind: ReplyKind::Board, text: String::new() })
            },
            Err(error) => (keep, FenReply { kind: ReplyKind::Text, text: error }),
        };
    }
    if chars_are_str(&s, "moves") {
        if !fen.has_king() {
            return (keep, FenReply { kind: ReplyKind::Stop, text: String::new() });
        }
        let moves = fen.get_moves();
        return (keep, FenReply { kind: ReplyKind::Text, text: moves.to_string() });
    }
    if chars_start_with(&s, "perft") {
        let fields = split_whitespace_chars(&s);
        assert(fields@.map_values(|f: Vec<char>| f@) =~= ws_fields(input@));
        return (keep, perft_command(fen, &fields));
    }
    if chars_are_str(&s, "string") {
        return (keep, FenReply { kind: ReplyKind::Text, text: fen.to_string() });
    }
    if chars_are_str(&s, "board") {
        return (keep, FenReply { kind: ReplyKind::Board, text: String::new() });
    }
    if chars_are_str(&s, "return") {
        return (keep, FenReply { kind: ReplyKind::Back, text: String::new() });
    }
    if chars_are_str(&s, "quit") {
        return (keep, FenReply { kind: ReplyKind::Quit, text: String::new() });
    }
    (keep, FenReply { kind: ReplyKind::Nothing, text: String::new() })
}

/// What a line of input does in the menu.
#[derive(Clone, Copy, PartialEq, Eq, Structural, Debug)]
pub enum MenuAction {
    /// Show the help text.
    Help,
    /// Enter the position mode.
    EnterFen,
    /// Quit.
    Quit,
    /// Nothing.
    Nothing,
}

/// What a line of input, already lowercased, does in the menu.
pub open spec fn menu_outcome(s: Seq<char>) -> MenuAction {
    if s == "help"@ {
        MenuAction::Help
    } else if s == "fen"@ {
        MenuAction::EnterFen
    } else if s == "quit"@ {
        MenuAction::Quit
    } else {
        MenuAction::Nothing
    }
}

/// What a line of input, already lowercased, does in the menu.
pub fn menu_command(input: &str) -> (res: MenuAction)
    ensures
        res == menu_outcome(input@),
{
    let s = str_to_chars(input);
    if chars_are_str(&s, "help") {
        MenuAction::Help
    } else if chars_are_str(&s, "fen") {
        MenuAction::EnterFen
    } else if chars_are_str(&s, "quit") {
        MenuAction::Quit
    } else {
        MenuAction::Nothing
    }
}

} // verus!
