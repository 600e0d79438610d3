//! The positions that exercise the corners of move generation: castling through and out of
//! check, en passant that uncovers the king, pins, promotions.
use vstd::prelude::*;
use crate::fen::Fen;
use crate::parsing::{parse_fen, fen_parse_stops, string_to_fen_stops};

verus! {

/// The FEN texts of the edge-case positions, in order.
pub open spec fn edge_case_texts() -> Seq<Seq<char>> {
    seq![
        "rnbqkbnr/pppppppp/8/8/8/8/PPPPPPPP/RNBQKBNR w KQkq - 0 1"@,
        "r3k2r/p1ppqpb1/bn2pnp1/3PN3/1p2P3/2N2Q1p/PPPBBPPP/R3K2R w KQkq - 0 1"@,
        "8/2p5/3p4/KP5r/1R3p1k/8/4P1P1/8 w - - 0 1"@,
        "r3k2r/Pppp1ppp/1b3nbN/nP6/BBP1P3/q4N2/Pp1P2PP/R2Q1RK1 w kq - 0 1"@,
        "rnbq1k1r/pp1Pbppp/2p5/8/2B5/8/PPP1NnPP/RNBQK2R w KQ - 1 8"@,
        "r4rk1/1pp1qppp/p1np1n2/2b1p1B1/2B1P1b1/P1NP1N2/1PP1QPPP/R4RK1 w - - 0 10"@,
        "8/8/8/KpP4r/8/8/8/7k w - b6 0 1"@,
        "8/8/8/1pP1K2r/8/8/8/7k w - b6 0 1"@,
        "8/8/8/r1PpP2K/8/8/8/7k w - d6 0 1"@,
        "4b3/8/8/2Pp3K/8/8/8/7k w - d6 0 1"@,
        "4b3/8/8/K1Pp1NQ1/8/8/8/7k w - d6 0 1"@,
        "1kb4q/6p1/3p2P1/r2Pp1K1/r7/8/8/8 w - e6 0 2"@,
        "k7/8/8/r2KpP2/8/8/8/8 w - e6 0 1"@,
        "k7/8/8/r2KpP1r/8/8/8/8 w - e6 0 1"@,
        "k7/8/8/r1bKpP1r/8/8/8/8 w - e6 0 1"@,
        "8/8/K7/1pP5/8/8/4b3/7k w - b6 0 1"@,
        "8/5b2/8/2PpP3/8/8/K7/7k w - d6 0 1"@,
        "6b1/8/4q3/3pP3/8/1K6/8/7k w - d6 0 1"@,
        "8/8/7K/6pP/8/8/8/2q4k w - g6 0 1"@,
        "K7/3B4/8/8/5Pp1/7k/8/8 b - f3 0 1"@,
        "8/7q/kn4R1/5K2/8/8/8/8 w - - 0 1"@,
        "2r3k1/8/4r3/8/2B5/2K5/8/8 w - - 0 1"@,
        "4k3/8/8/8/8/8/3r1r2/4K3 w - - 0 1"@,
        "4k3/8/8/8/8/8/4r3/4K3 w - - 0 1"@,
        "4k3/8/8/8/8/2b5/3B4/4K3 w - - 0 1"@,
        "4k3/8/8/8/8/2b5/3N4/4K3 w - - 0 1"@,
        "4k3/8/8/8/8/8/3P4/4rK2 w - - 0 1"@,
        "4k3/8/8/3pP3/8/8/8/4K3 w - d6 0 1"@,
        "4k3/8/8/3pP3/8/8/4r3/4K3 w - d6 0 1"@,
        "r3k2r/8/8/8/8/8/8/R3K2R w KQkq - 0 1"@,
        "r3k2r/8/8/8/8/8/8/R2QK2R w KQkq - 0 1"@,
        "r3k2r/8/8/8/8/8/5r2/R3K2R w KQkq - 0 1"@,
        "r3k2r/8/8/8/8/8/4r3/R3K2R w KQkq - 0 1"@,
        "4k3/P7/8/8/8/8/8/4K3 w - - 0 1"@,
        "4k3/1p6/P7/8/8/8/8/4K3 w - - 0 1"@,
        "4k3/8/8/8/8/8/3R4/4K2r w - - 0 1"@,
        "7k/5Q2/6K1/8/8/8/8/8 b - - 0 1"@,
        "7k/6Q1/6K1/8/8/8/8/8 b - - 0 1"@,
        "4k3/8/8/8/2b5/8/3R4/4K2r w - - 0 1"@,
        "4k3/8/8/8/8/2r5/3B4/4K3 w - - 0 1"@,
    ]
}

/// The positions that the texts `ts` describe, in order, leaving out any text that does not
/// parse.
pub open spec fn parsed_positions(ts: Seq<Seq<char>>) -> Seq<Seq<u64>>
    decreases ts.len(),
{
    if ts.len() == 0 {
        Seq::empty()
    } else {
        let rest = parsed_positions(ts.drop_last());
        let t = ts.last();
        if !fen_parse_stops(t) && parse_fen(t) is Ok {
            rest.push(parse_fen(t)->Ok_0)
        } else {
            rest
        }
    }
}

/// The edge-case positions, parsed from their FEN texts.
pub fn get_edge_cases() -> (res: Vec<Fen>)
    ensures
        res@.map_values(|f: Fen| f@) == parsed_positions(edge_case_texts()),
{
    let strings: Vec<&str> = vec![
        "rnbqkbnr/pppppppp/8/8/8/8/PPPPPPPP/RNBQKBNR w KQkq - 0 1",
        "r3k2r/p1ppqpb1/bn2pnp1/3PN3/1p2P3/2N2Q1p/PPPBBPPP/R3K2R w KQkq - 0 1",
        "8/2p5/3p4/KP5r/1R3p1k/8/4P1P1/8 w - - 0 1",
        "r3k2r/Pppp1ppp/1b3nbN/nP6/BBP1P3/q4N2/Pp1P2PP/R2Q1RK1 w kq - 0 1",
        "rnbq1k1r/pp1Pbppp/2p5/8/2B5/8/PPP1NnPP/RNBQK2R w KQ - 1 8",
        "r4rk1/1pp1qppp/p1np1n2/2b1p1B1/2B1P1b1/P1NP1N2/1PP1QPPP/R4RK1 w - - 0 10",
        "8/8/8/KpP4r/8/8/8/7k w - b6 0 1",
        "8/8/8/1pP1K2r/8/8/8/7k w - b6 0 1",
        "8/8/8/r1PpP2K/8/8/8/7k w - d6 0 1",
        "4b3/8/8/2Pp3K/8/8/8/7k w - d6 0 1",
        "4b3/8/8/K1Pp1NQ1/8/8/8/7k w - d6 0 1",
        "1kb4q/6p1/3p2P1/r2Pp1K1/r7/8/8/8 w - e6 0 2",
        "k7/8/8/r2KpP2/8/8/8/8 w - e6 0 1",
        "k7/8/8/r2KpP1r/8/8/8/8 w - e6 0 1",
        "k7/8/8/r1bKpP1r/8/8/8/8 w - e6 0 1",
        "8/8/K7/1pP5/8/8/4b3/7k w - b6 0 1",
        "8/5b2/8/2PpP3/8/8/K7/7k w - d6 0 1",
        "6b1/8/4q3/3pP3/8/1K6/8/7k w - d6 0 1",
        "8/8/7K/6pP/8/8/8/2q4k w - g6 0 1",
        "K7/3B4/8/8/5Pp1/7k/8/8 b - f3 0 1",
        "8/7q/kn4R1/5K2/8/8/8/8 w - - 0 1",
        "2r3k1/8/4r3/8/2B5/2K5/8/8 w - - 0 1",
        "4k3/8/8/8/8/8/3r1r2/4K3 w - - 0 1",
        "4k3/8/8/8/8/8/4r3/4K3 w - - 0 1",
        "4k3/8/8/8/8/2b5/3B4/4K3 w - - 0 1",
        "4k3/8/8/8/8/2b5/3N4/4K3 w - - 0 1",
        "4k3/8/8/8/8/8/3P4/4rK2 w - - 0 1",
        "4k3/8/8/3pP3/8/8/8/4K3 w - d6 0 1",
        "4k3/8/8/3pP3/8/8/4r3/4K3 w - d6 0 1",
        "r3k2r/8/8/8/8/8/8/R3K2R w KQkq - 0 1",
        "r3k2r/8/8/8/8/8/8/R2QK2R w KQkq - 0 1",
        "r3k2r/8/8/8/8/8/5r2/R3K2R w KQkq - 0 1",
        "r3k2r/8/8/8/8/8/4r3/R3K2R w KQkq - 0 1",
        "4k3/P7/8/8/8/8/8/4K3 w - - 0 1",
        "4k3/1p6/P7/8/8/8/8/4K3 w - - 0 1",
        "4k3/8/8/8/8/8/3R4/4K2r w - - 0 1",
        "7k/5Q2/6K1/8/8/8/8/8 b - - 0 1",
        "7k/6Q1/6K1/8/8/8/8/8 b - - 0 1",
        "4k3/8/8/8/2b5/8/3R4/4K2r w - - 0 1",
        "4k3/8/8/8/8/2r5/3B4/4K3 w - - 0 1",
    ];
    let ghost texts = edge_case_texts();
    assert(strings@.map_values(|s: &str| s@) =~= texts);
    let mut result: Vec<Fen> = Vec::new();
    for i in 0..strings.len()
        invariant
            strings@.map_values(|s: &str| s@) == texts,
            result@.map_values(|f: Fen| f@) == parsed_positions(texts.take(i as int)),
    {
        let string = strings[i];
        assert(texts.take(i + 1).drop_last() =~= texts.take(i as int));
        assert(texts.take(i + 1).last() == string@);
        if !string_to_fen_stops(string) {
            match Fen::from_str(string) {
                Ok(fen) => {
                    result.push(fen);
                },
                Err(_) => {},
            }
        }
        assert(result@.map_values(|f: Fen| f@) =~= parsed_positions(texts.take(i + 1)));
    }
    assert(texts.take(strings.len() as int) =~= texts);
    result
}

} // verus!
