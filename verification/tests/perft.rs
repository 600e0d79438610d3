use chess_engine::edge_cases::get_edge_cases;
use chess_engine::fen::Fen;
use chess_engine::perft::{checked_perft, checked_recursive_perft, perft, recursive_perft};

#[test]
fn start_position_perft() {
    let fen = Fen::new();
    assert_eq!(perft(1, &fen).total, 20);
    assert_eq!(perft(2, &fen).total, 400);
    assert_eq!(perft(3, &fen).total, 8902);
}

#[test]
fn kiwipete_perft() {
    let fen = Fen::from_str("r3k2r/p1ppqpb1/bn2pnp1/3PN3/1p2P3/2N2Q1p/PPPBBPPP/R3K2R w KQkq - 0 1").unwrap();
    assert_eq!(recursive_perft(2, &fen), 48);
    assert_eq!(perft(2, &fen).total, 2039);
}

#[test]
fn known_perft_counts() {
    let cases = [
        ("8/2p5/3p4/KP5r/1R3p1k/8/4P1P1/8 w - - 0 1", [14, 191, 2812]),
        ("r3k2r/Pppp1ppp/1b3nbN/nP6/BBP1P3/q4N2/Pp1P2PP/R2Q1RK1 w kq - 0 1", [6, 264, 9467]),
        ("rnbq1k1r/pp1Pbppp/2p5/8/2B5/8/PPP1NnPP/RNBQK2R w KQ - 1 8", [44, 1486, 62379]),
        ("r4rk1/1pp1qppp/p1np1n2/2b1p1B1/2B1P1b1/P1NP1N2/1PP1QPPP/R4RK1 w - - 0 10", [46, 2079, 89890]),
    ];
    for (text, counts) in cases {
        let fen = Fen::from_str(text).unwrap();
        for (d, count) in counts.iter().enumerate() {
            assert_eq!(perft(d + 1, &fen).total, *count, "{} depth {}", text, d + 1);
        }
    }
}

#[test]
fn recursive_perft_depths() {
    let fen = Fen::new();
    assert_eq!(recursive_perft(1, &fen), 1);
    assert_eq!(recursive_perft(2, &fen), 20);
    assert_eq!(recursive_perft(3, &fen), 400);
    assert_eq!(recursive_perft(4, &fen), 8902);
}

#[test]
fn perft_counts_add_up() {
    let fen = Fen::from_str("r3k2r/8/8/8/8/8/8/R3K2R w KQkq - 0 1").unwrap();
    let result = perft(2, &fen);
    assert_eq!(result.moves.size, 26);
    assert_eq!(result.counts.len(), 26);
    assert_eq!(result.counts.iter().sum::<usize>(), result.total);
    assert_eq!(result.total, 568);
    let text = result.to_string();
    assert!(text.ends_with("Total: 568"));
    assert_eq!(text.lines().count(), 27);
    assert!(text.contains("e1g1: "));
}

#[test]
fn edge_cases_parse() {
    let cases = get_edge_cases();
    assert_eq!(cases.len(), 40);
    assert_eq!(cases[0].to_string(), "rnbqkbnr/pppppppp/8/8/8/8/PPPPPPPP/RNBQKBNR w KQkq - 0 1");
    assert_eq!(cases[39].to_string(), "4k3/8/8/8/8/2r5/3B4/4K3 w - - 0 1");
    for fen in &cases {
        let again = Fen::from_str(&fen.to_string()).unwrap();
        assert_eq!(again.array, fen.array);
    }
}

#[test]
fn edge_cases_perft_one() {
    for fen in get_edge_cases() {
        let result = perft(1, &fen);
        assert_eq!(result.total, result.moves.size);
        assert_eq!(result.total, fen.get_moves().size);
    }
}

#[test]
fn checked_perft_runs() {
    let fen = Fen::new();
    assert!(checked_perft(0, &fen).is_none());
    let result = checked_perft(2, &fen).unwrap();
    assert_eq!(result.total, 400);
    assert_eq!(result.counts.len(), 20);
    assert_eq!(result.to_string(), perft(2, &fen).to_string());
    assert_eq!(checked_recursive_perft(3, &fen), Some(400));
    assert_eq!(checked_recursive_perft(1, &fen), Some(1));
}

#[test]
fn checked_perft_without_king() {
    let no_king = Fen::from_str("4k3/8/8/8/8/8/8/8 w - - 0 1").unwrap();
    assert!(!no_king.has_king());
    assert!(checked_perft(1, &no_king).is_none());
    assert_eq!(checked_recursive_perft(1, &no_king), None);
    let king_en_prise = Fen::from_str("4k3/8/8/8/8/8/4R3/4K3 w - - 0 1").unwrap();
    assert!(king_en_prise.has_king());
    assert_eq!(checked_recursive_perft(1, &king_en_prise), Some(1));
    assert_eq!(checked_recursive_perft(2, &king_en_prise), Some(king_en_prise.get_moves().size));
    assert!(checked_perft(1, &king_en_prise).is_none());
    assert_eq!(checked_recursive_perft(3, &king_en_prise), None);
    let stalemate = Fen::from_str("7k/5Q2/6K1/8/8/8/8/8 b - - 0 1").unwrap();
    let empty = checked_perft(3, &stalemate).unwrap();
    assert_eq!(empty.total, 0);
    assert_eq!(empty.moves.size, 0);
}

#[test]
fn perft_total_is_one_level_deeper() {
    let positions = [
        Fen::new(),
        Fen::from_str("r3k2r/p1ppqpb1/bn2pnp1/3PN3/1p2P3/2N2Q1p/PPPBBPPP/R3K2R w KQkq - 0 1").unwrap(),
        Fen::from_str("8/2p5/3p4/KP5r/1R3p1k/8/4P1P1/8 w - - 0 1").unwrap(),
    ];
    for fen in &positions {
        for depth in 1..3 {
            assert_eq!(perft(depth, fen).total, recursive_perft(depth + 1, fen));
        }
    }
}

#[test]
fn perft_at_depth_zero() {
    let stalemate = Fen::from_str("7k/5Q2/6K1/8/8/8/8/8 b - - 0 1").unwrap();
    assert_eq!(recursive_perft(0, &stalemate), 0);
    let result = perft(0, &stalemate);
    assert_eq!((result.total, result.moves.size), (0, 0));
    assert_eq!(checked_recursive_perft(0, &stalemate), Some(0));
    assert_eq!(checked_perft(0, &stalemate).unwrap().total, 0);
    let start = Fen::new();
    assert_eq!(checked_recursive_perft(0, &start), None);
    assert!(checked_perft(0, &start).is_none());
}
