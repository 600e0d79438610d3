use chess_engine::moves::{
    Move, Moves, PerftResult, Prom, MOVE_LENGTH_ERROR, MOVE_PROMOTION_ERROR, MOVE_SQUARES_ERROR,
};
use chess_engine::parsing::lan_to_bitboard;

#[test]
fn promotion_letters() {
    assert_eq!(Prom::from_str("q"), Prom::Queen);
    assert_eq!(Prom::from_str("b"), Prom::Bishop);
    assert_eq!(Prom::from_str("n"), Prom::Knight);
    assert_eq!(Prom::from_str("r"), Prom::Rook);
    assert_eq!(Prom::from_str("x"), Prom::NoProm);
    assert_eq!(Prom::from_str("Q"), Prom::NoProm);
    assert_eq!(Prom::from_str("qq"), Prom::NoProm);
    assert_eq!(Prom::from_str(""), Prom::NoProm);
    assert_eq!(Prom::Queen.to_string(), "q");
    assert_eq!(Prom::Bishop.to_string(), "b");
    assert_eq!(Prom::Knight.to_string(), "n");
    assert_eq!(Prom::Rook.to_string(), "r");
    assert_eq!(Prom::NoProm.to_string(), "");
}

#[test]
fn move_codes() {
    let m = Move::new(1u64 << 12, 1u64 << 28);
    assert_eq!(m.move1, 12 | (28 << 6));
    assert_eq!(m.get_from(), 1u64 << 12);
    assert_eq!(m.get_to(), 1u64 << 28);
    assert_eq!(m.get_prom(), Prom::NoProm);

    let p = Move::new_with_prom(1u64 << 48, 1u64 << 56, Prom::Queen);
    assert_eq!(p.move1, 48 | (56 << 6) | (1 << 12));
    assert_eq!(p.get_prom(), Prom::Queen);
    assert_eq!(Move::new_with_prom(1, 2, Prom::Bishop).move1, 1 << 6 | 1 << 13);
    assert_eq!(Move::new_with_prom(1, 2, Prom::Knight).get_prom(), Prom::Knight);
    assert_eq!(Move::new_with_prom(1, 2, Prom::Rook).move1, 1 << 6 | 1 << 15);
    assert_eq!(Move::new_with_prom(1, 2, Prom::NoProm), Move::new(1, 2));
    assert_eq!(Move::empty().move1, 0);
    assert_eq!(Move::empty().get_from(), 1);
    assert_eq!(Move::from_squares(11, 27, Prom::NoProm), Move::new(1u64 << 11, 1u64 << 27));
}

#[test]
fn move_from_text() {
    let m = Move::from_str("e2e4").unwrap();
    assert_eq!(m.move1, 11 | (27 << 6));
    assert_eq!(m.get_from(), lan_to_bitboard("e2"));
    assert_eq!(m.get_to(), lan_to_bitboard("e4"));
    let p = Move::from_str("E7E8N").unwrap();
    assert_eq!(p.get_prom(), Prom::Knight);
    assert_eq!(p.to_string(), "e7e8n");
    assert_eq!(Move::from_str("b7a8r").unwrap().to_string(), "b7a8r");
}

#[test]
fn move_text_errors() {
    assert_eq!(Move::from_str("e2e").unwrap_err(), MOVE_LENGTH_ERROR);
    assert_eq!(Move::from_str("e2e4qq").unwrap_err(), MOVE_LENGTH_ERROR);
    assert_eq!(Move::from_str("").unwrap_err(), MOVE_LENGTH_ERROR);
    assert_eq!(Move::from_str("e2z4").unwrap_err(), MOVE_SQUARES_ERROR);
    assert_eq!(Move::from_str("e9e4").unwrap_err(), MOVE_SQUARES_ERROR);
    assert_eq!(Move::from_str("e7e8x").unwrap_err(), MOVE_PROMOTION_ERROR);
    assert_eq!(Move::from_str("e7e8k").unwrap_err(), MOVE_PROMOTION_ERROR);
    assert_eq!(MOVE_LENGTH_ERROR, "Error: Move must have four or five characters");
    assert_eq!(MOVE_SQUARES_ERROR, "Error: Move must have valid squares");
    assert_eq!(MOVE_PROMOTION_ERROR, "Error: Promotion flag must be 'q', 'b', 'n' or 'r'");
}

#[test]
fn move_text_round_trip() {
    for from in 0..64usize {
        for to in [0usize, 7, 27, 56, 63] {
            for prom in [Prom::NoProm, Prom::Queen, Prom::Bishop, Prom::Knight, Prom::Rook] {
                let m = Move::from_squares(from, to, prom);
                let text = m.to_string();
                assert_eq!(Move::from_str(&text).unwrap(), m);
            }
        }
    }
}

#[test]
fn move_lists() {
    let mut moves = Moves::empty();
    assert_eq!(moves.size, 0);
    assert_eq!(moves.to_string(), "");
    moves.add(Move::from_str("e2e4").unwrap());
    moves.add(Move::from_str("d7d5").unwrap());
    assert_eq!(moves.size, 2);
    assert_eq!(moves.to_string(), "e2e4, d7d5, ");

    let array = vec![Move::from_str("g1f3").unwrap(), Move::from_str("a7a8q").unwrap()];
    let listed = Moves::new(array.clone(), 1);
    assert_eq!(listed.size, 1);
    assert_eq!(listed.array, array);
    assert_eq!(listed.to_string(), "g1f3, ");

    let mut reused = Moves::new(array, 0);
    reused.add(Move::from_str("b1c3").unwrap());
    assert_eq!(reused.size, 1);
    assert_eq!(reused.array.len(), 2);
    assert_eq!(reused.to_string(), "b1c3, ");
}

#[test]
fn perft_listing() {
    let mut moves = Moves::empty();
    moves.add(Move::from_str("e2e4").unwrap());
    moves.add(Move::from_str("d7d5").unwrap());
    let result = PerftResult::new(moves, vec![5, 7], 12);
    assert_eq!(result.total, 12);
    assert_eq!(result.counts, vec![5, 7]);
    assert_eq!(result.to_string(), "e2e4: 5\nd7d5: 7\nTotal: 12");
    let empty = PerftResult::empty();
    assert_eq!(empty.moves.size, 0);
    assert_eq!(empty.total, 0);
    assert_eq!(empty.to_string(), "Total: 0");
}

#[test]
fn move_text_reads_back() {
    for text in ["e2e4", "a7a8q", "h2h1n", "b7c8r", "g1f3", "e7e8b"] {
        assert_eq!(Move::from_str(text).unwrap().to_string(), text);
    }
    assert_eq!(Move::from_str("z2\u{e9}").unwrap_err(), MOVE_SQUARES_ERROR);
    assert_eq!(Move::from_str("\u{e9}2e4").unwrap_err(), MOVE_SQUARES_ERROR);
}

#[test]
fn move_parts_read_back() {
    let from = lan_to_bitboard("e7");
    let to = lan_to_bitboard("e8");
    for p in [Prom::Queen, Prom::Bishop, Prom::Knight, Prom::Rook, Prom::NoProm] {
        let m = Move::new_with_prom(from, to, p);
        assert_eq!(m.get_prom(), p);
        assert_eq!((m.get_from(), m.get_to()), (from, to));
    }
    assert_eq!(Move::new(from, to).get_prom(), Prom::NoProm);
}
