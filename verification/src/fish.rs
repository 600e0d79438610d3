//! The text exchanged with a UCI engine when asking it for an evaluation: the commands sent,
//! and the reading of the score from its reply.
use vstd::prelude::*;
use crate::text::{push_chars, push_decimal, decimal, str_to_chars};
use crate::parsing::{all_digits, digits_value, ws_fields, split_whitespace_chars, digits_capped};

verus! {

pub const BESTMOVE: &'static str = "bestmove";

pub const NODES: &'static str = "Nodes";

pub const CHECKERS: &'static str = "Checkers";

pub const DEFAULT_NODES: u64 = 1000000;

/// The node count a search is asked for: the one given, else `DEFAULT_NODES`.
pub open spec fn nodes_or_default(nodes_option: Option<u64>) -> u64 {
    match nodes_option {
        Some(n) => n,
        None => DEFAULT_NODES,
    }
}

/// The two commands that ask for an evaluation: set the position, then search a number of
/// nodes.
pub open spec fn eval_commands(fen: Seq<char>, nodes_option: Option<u64>) -> Seq<Seq<char>> {
    seq![
        "position fen "@ + fen,
        "go nodes "@ + decimal(nodes_or_default(nodes_option) as nat),
    ]
}

/// The commands that ask the engine to evaluate the position `fen_str`, searching
/// `nodes_option` nodes, or `DEFAULT_NODES` when none is given.
pub fn fish_commands(fen_str: &str, nodes_option: Option<u64>) -> (res: Vec<String>)
    ensures
        res@.len() == 2,
        res@[0]@ == eval_commands(fen_str@, nodes_option)[0],
        res@[1]@ == eval_commands(fen_str@, nodes_option)[1],
{
    let nodes = match nodes_option {
        Some(nodes) => nodes,
        None => DEFAULT_NODES,
    };
    let mut pos_cmd = "position fen ".to_string();
    push_chars(&mut pos_cmd, &str_to_chars(fen_str));
    let mut node_cmd = "go nodes ".to_string();
    push_decimal(&mut node_cmd, nodes);
    let mut commands: Vec<String> = Vec::new();
    commands.push(pos_cmd);
    commands.push(node_cmd);
    commands
}

/// The value of a field as `i32` parsing reads it: an optional `+` or `-`, then one or more
/// decimal digits and nothing else.
pub open spec fn signed_value(f: Seq<char>) -> Option<int> {
    if f.len() > 0 && (f[0] == '-' || f[0] == '+') {
        let rest = f.drop_first();
        if rest.len() > 0 && all_digits(rest) {
            Some(
                if f[0] == '-' {
                    -digits_value(rest)
                } else {
                    digits_value(rest) as int
                },
            )
        } else {
            None
        }
    } else if f.len() > 0 && all_digits(f) {
        Some(digits_value(f) as int)
    } else {
        None
    }
}

/// The `i32` a field denotes, if it is a signed decimal number in range.
pub open spec fn i32_value(f: Seq<char>) -> Option<i32> {
    match signed_value(f) {
        Some(v) => if i32::MIN <= v <= i32::MAX {
            Some(v as i32)
        } else {
            None
        },
        None => None,
    }
}

/// The score in a reply to an evaluation request: the tenth white-space separated field of
/// the line before the last, read as an `i32`.
pub open spec fn reply_centipawns(lines: Seq<String>) -> Option<i32> {
    if lines.len() < 2 {
        None
    } else {
        let fields = ws_fields(lines[lines.len() - 2]@);
        if fields.len() < 10 {
            None
        } else {
            i32_value(fields[9])
        }
    }
}

/// Reads a field as `i32` parsing does.
fn parse_i32(f: &Vec<char>) -> (res: Option<i32>)
    ensures
        res == i32_value(f@),
{
    if f.len() == 0 {
        return None;
    }
    let signed = f[0] == '-' || f[0] == '+';
    let start: usize = if signed {
        1
    } else {
        0
    };
    if signed && f.len() == 1 {
        return None;
    }
    assert(f@.subrange(0, f@.len() as int) =~= f@);
    assert(f@.subrange(1, f@.len() as int) =~= f@.drop_first());
    let v = match digits_capped(f, start, 0x1_0000_0000) {
        None => return None,
        Some(v) => v,
    };
    if f[0] == '-' {
        if v > 0x8000_0000 {
            None
        } else {
            let neg: i64 = -(v as i64);
            Some(neg as i32)
        }
    } else {
        if v > 0x7fff_ffff {
            None
        } else {
            Some(v as i32)
        }
    }
}

/// The score an engine's reply to an evaluation request holds, in centipawns: the tenth
/// field of the line before the last, if the reply has such a line and field and the field
/// is an `i32`.
pub fn centipawns_from_reply(lines: &Vec<String>) -> (res: Option<i32>)
    ensures
        res == reply_centipawns(lines@),
{
    if lines.len() < 2 {
        return None;
    }
    let line = &lines[lines.len() - 2];
    let chars = str_to_chars(line.as_str());
    let fields = split_whitespace_chars(&chars);
    if fields.len() < 10 {
        return None;
    }
    parse_i32(&fields[9])
}


/// Whether the engine's reply ends with `line`: it begins with `stop_at`.
pub fn is_stop_line(line: &str, stop_at: &str) -> (res: bool)
    ensures
        res == crate::cli::starts_with(line@, stop_at@),
{
    let l = crate::text::str_to_chars(line);
    let p = crate::text::str_to_chars(stop_at);
    if l.len() < p.len() {
        return false;
    }
    for i in 0..p.len()
        invariant
            l@ == line@,
            p@ == stop_at@,
            l@.len() >= p@.len(),
            forall|k: int| 0 <= k < i ==> l@[k] == p@[k],
    {
        if l[i] != p[i] {
            assert(l@.take(p@.len() as int)[i as int] != p@[i as int]);
            return false;
        }
    }
    assert(l@.take(p@.len() as int) =~= p@);
    true
}

} // verus!
