use chess_engine::board::INFO;
use chess_engine::fen::Fen;
use chess_engine::moves::Move;
use chess_engine::parsing::{info_string, info_to_fullmove, FIELDS_ERROR};

const START: &str = "rnbqkbnr/pppppppp/8/8/8/8/PPPPPPPP/RNBQKBNR w KQkq - 0 1";
const KIWIPETE: &str = "r3k2r/p1ppqpb1/bn2pnp1/3PN3/1p2P3/2N2Q1p/PPPBBPPP/R3K2R w KQkq - 0 1";
const CASTLES: &str = "r3k2r/8/8/8/8/8/8/R3K2R w KQkq - 0 1";
const RIGHTS: u64 = 0xf << 41;

fn after(fen: &str, moves: &[&str]) -> String {
    let mut f = Fen::from_str(fen).unwrap();
    for m in moves {
        f.make_move(Move::from_str(m).unwrap());
    }
    f.to_string()
}

fn legal(fen: &Fen) -> Vec<Move> {
    let moves = fen.get_moves();
    moves.array[..moves.size].to_vec()
}

fn pseudo(fen: &Fen) -> Vec<Move> {
    let moves = fen.get_pseudo_legal_moves();
    moves.array[..moves.size].to_vec()
}

#[test]
fn new_is_start_position() {
    let fen = Fen::new();
    assert_eq!(fen.to_string(), START);
    assert!(fen.white_to_move());
    assert!(!fen.in_check());
    assert_eq!(Fen::from_str(START).unwrap().array, fen.array);
    assert_eq!(fen.clone_position().array, fen.array);
}

#[test]
fn from_str_error() {
    assert_eq!(Fen::from_str("8/8/8/8 w").unwrap_err(), FIELDS_ERROR);
}

#[test]
fn opening_moves() {
    assert_eq!(after(START, &["e2e4"]), "rnbqkbnr/pppppppp/8/8/4P3/8/PPPP1PPP/RNBQKBNR b KQkq e3 0 1");
    assert_eq!(
        after(START, &["e2e4", "e7e5"]),
        "rnbqkbnr/pppp1ppp/8/4p3/4P3/8/PPPP1PPP/RNBQKBNR w KQkq e6 0 2"
    );
    assert_eq!(
        after(START, &["e2e4", "e7e5", "g1f3"]),
        "rnbqkbnr/pppp1ppp/8/4p3/4P3/5N2/PPPP1PPP/RNBQKB1R b KQkq - 1 2"
    );
    assert_eq!(
        after(START, &["e2e4", "e7e5", "g1f3", "b8c6"]),
        "r1bqkbnr/pppp1ppp/2n5/4p3/4P3/5N2/PPPP1PPP/RNBQKB1R w KQkq - 2 3"
    );
}

#[test]
fn castling_moves() {
    assert_eq!(after(CASTLES, &["e1g1"]), "r3k2r/8/8/8/8/8/8/R4RK1 b kq - 1 1");
    assert_eq!(after(CASTLES, &["e1c1"]), "r3k2r/8/8/8/8/8/8/2KR3R b kq - 1 1");
    assert_eq!(after(CASTLES, &["e1g1", "e8c8"]), "2kr3r/8/8/8/8/8/8/R4RK1 w - - 2 2");
    assert_eq!(after(CASTLES, &["a1a8"]), "R3k2r/8/8/8/8/8/8/4K2R b Kk - 0 1");
    assert_eq!(after(CASTLES, &["h1h2"]), "r3k2r/8/8/8/8/8/7R/R3K3 b Qkq - 1 1");
}

#[test]
fn promotion_and_en_passant() {
    let promoted = after("4k3/P7/8/8/8/8/8/4K3 w - - 0 1", &["a7a8q"]);
    assert_eq!(promoted, "Q3k3/8/8/8/8/8/8/4K3 b - - 0 1");
    assert!(Fen::from_str(&promoted).unwrap().in_check());
    assert_eq!(after("4k3/P7/8/8/8/8/8/4K3 w - - 0 1", &["a7a8n"]), "N3k3/8/8/8/8/8/8/4K3 b - - 0 1");
    assert_eq!(after("4k3/8/8/3pP3/8/8/8/4K3 w - d6 0 1", &["e5d6"]), "4k3/8/3P4/8/8/8/8/4K3 b - - 0 1");
    assert_eq!(after("K7/3B4/8/8/5Pp1/7k/8/8 b - f3 0 1", &["g4f3"]), "K7/3B4/8/8/8/5p1k/8/8 w - - 0 2");
}

#[test]
fn checks() {
    assert!(Fen::from_str("4k3/8/8/8/8/8/4r3/4K3 w - - 0 1").unwrap().in_check());
    assert!(!Fen::from_str("4k3/8/8/8/8/8/3r4/4K3 b - - 0 1").unwrap().in_check());
    assert!(Fen::from_str("7k/6Q1/6K1/8/8/8/8/8 b - - 0 1").unwrap().in_check());
    assert!(!Fen::from_str("7k/5Q2/6K1/8/8/8/8/8 b - - 0 1").unwrap().in_check());
}

#[test]
fn legal_move_counts() {
    let counts = [
        (START, 20),
        (KIWIPETE, 48),
        (CASTLES, 26),
        ("8/2p5/3p4/KP5r/1R3p1k/8/4P1P1/8 w - - 0 1", 14),
        ("r3k2r/Pppp1ppp/1b3nbN/nP6/BBP1P3/q4N2/Pp1P2PP/R2Q1RK1 w kq - 0 1", 6),
        ("rnbq1k1r/pp1Pbppp/2p5/8/2B5/8/PPP1NnPP/RNBQK2R w KQ - 1 8", 44),
        ("r4rk1/1pp1qppp/p1np1n2/2b1p1B1/2B1P1b1/P1NP1N2/1PP1QPPP/R4RK1 w - - 0 10", 46),
        ("4k3/8/8/8/8/8/4r3/4K3 w - - 0 1", 3),
        ("7k/5Q2/6K1/8/8/8/8/8 b - - 0 1", 0),
        ("7k/6Q1/6K1/8/8/8/8/8 b - - 0 1", 0),
        ("K7/3B4/8/8/5Pp1/7k/8/8 b - f3 0 1", 4),
    ];
    for (text, count) in counts {
        let fen = Fen::from_str(text).unwrap();
        assert_eq!(fen.get_moves().size, count, "{}", text);
    }
}

#[test]
fn pseudo_legal_moves() {
    let start = Fen::new();
    assert_eq!(start.get_pseudo_legal_moves().size, 20);
    assert_eq!(
        start.get_pseudo_legal_moves().to_string().split(", ").filter(|s| !s.is_empty()).count(),
        20
    );
    let pinned = Fen::from_str("K7/3B4/8/8/5Pp1/7k/8/8 b - f3 0 1").unwrap();
    let names: Vec<String> = pseudo(&pinned).iter().map(|m| m.to_string()).collect();
    assert!(names.contains(&"g4f3".to_string()));
    assert!(names.contains(&"g4g3".to_string()));
    let legal_names: Vec<String> = legal(&pinned).iter().map(|m| m.to_string()).collect();
    assert!(!legal_names.contains(&"g4f3".to_string()));
    assert!(!legal_names.contains(&"g4g3".to_string()));
}

#[test]
fn legal_moves_are_pseudo_legal() {
    for text in [START, KIWIPETE, CASTLES, "K7/3B4/8/8/5Pp1/7k/8/8 b - f3 0 1",
        "4k3/8/8/8/8/8/4r3/4K3 w - - 0 1"] {
        let fen = Fen::from_str(text).unwrap();
        let all = pseudo(&fen);
        for m in legal(&fen) {
            assert!(all.contains(&m));
        }
    }
}

#[test]
fn make_move_flips_turn() {
    for text in [START, KIWIPETE, "K7/3B4/8/8/5Pp1/7k/8/8 b - f3 0 1"] {
        let fen = Fen::from_str(text).unwrap();
        for m in legal(&fen) {
            let mut next = fen.clone_position();
            next.make_move(m);
            assert_eq!(next.white_to_move(), !fen.white_to_move());
        }
    }
}

#[test]
fn castling_rights_never_grow() {
    for text in [CASTLES, KIWIPETE, START] {
        let fen = Fen::from_str(text).unwrap();
        for m in pseudo(&fen) {
            let mut next = fen.clone_position();
            next.make_move(m);
            let before = fen.array[INFO] & RIGHTS;
            let now = next.array[INFO] & RIGHTS;
            assert_eq!(now & !before, 0);
        }
    }
}

#[test]
fn fullmove_counts_black_moves() {
    let mut fen = Fen::new();
    for (i, m) in ["e2e4", "e7e5", "g1f3", "b8c6", "f1c4", "g8f6"].iter().enumerate() {
        fen.make_move(Move::from_str(m).unwrap());
        assert_eq!(info_to_fullmove(fen.array[INFO]), 1 + (i as u64 + 1) / 2);
    }
}

#[test]
fn move_names_round_trip() {
    let fen = Fen::from_str(KIWIPETE).unwrap();
    for m in legal(&fen) {
        assert_eq!(Move::from_str(&m.to_string()).unwrap(), m);
    }
}

#[test]
fn kings_to_move() {
    assert!(Fen::new().has_king());
    assert!(!Fen::from_str("4k3/8/8/8/8/8/8/8 w - - 0 1").unwrap().has_king());
    assert!(Fen::from_str("4k3/8/8/8/8/8/8/8 b - - 0 1").unwrap().has_king());
}

#[test]
fn start_diagram() {
    let expected = "Board:  w KQkq - 0 1\n\n\t8 | r n b q k b n r \n\t7 | p p p p p p p p \n\t6 | . . . . . . . . \n\t5 | . . . . . . . . \n\t4 | . . . . . . . . \n\t3 | . . . . . . . . \n\t2 | P P P P P P P P \n\t1 | R N B Q K B N R \n\t  + ---------------\n\t    a b c d e f g h";
    assert_eq!(Fen::new().board_diagram(), expected);
}

#[test]
fn diagram_after_move() {
    let mut fen = Fen::new();
    fen.make_move(Move::from_str("e2e4").unwrap());
    let diagram = fen.board_diagram();
    assert!(diagram.starts_with("Board:  b KQkq e3 0 1\n\n\t8 | r n b q k b n r \n"));
    assert!(diagram.contains("\n\t4 | . . . . P . . . \n"));
    assert!(diagram.contains("\n\t2 | P P P P . P P P \n"));
}

#[test]
fn info_fields() {
    assert_eq!(info_string(Fen::new().array[INFO]), " w KQkq - 0 1");
    assert_eq!(info_string(0x40), " b - - 0 0");
    assert_eq!(info_string((1u64 << 40) | 19 | (7 << 8) | (12 << 24)), " w - e3 7 12");
}

#[test]
fn legal_moves_leave_king_safe() {
    let mut positions: Vec<Fen> = chess_engine::edge_cases::get_edge_cases();
    positions.push(Fen::from_str(KIWIPETE).unwrap());
    positions.push(Fen::from_str(CASTLES).unwrap());
    for fen in positions {
        for m in legal(&fen) {
            let mut next = fen.clone_position();
            next.make_move(m);
            let white_moved = fen.white_to_move();
            let king = if white_moved { next.array[5] } else { next.array[11] };
            assert_eq!(king.count_ones(), 1);
            let king_name = chess_engine::parsing::bitboard_to_lan(king);
            if next.has_king() {
                for reply in pseudo(&next) {
                    let name = reply.to_string();
                    assert_ne!(&name[2..4], king_name.as_str(), "{} after {}", fen.to_string(), m.to_string());
                }
            }
        }
    }
}

fn position_is_valid(f: &Fen) -> bool {
    let a = f.array;
    let mut seen = 0u64;
    for p in 0..12 {
        if a[p] & seen != 0 {
            return false;
        }
        seen |= a[p];
    }
    if a[5].count_ones() != 1 || a[11].count_ones() != 1 {
        return false;
    }
    let info = a[INFO];
    let rights = [(41, 5, 3, 3, 0), (42, 5, 3, 3, 7), (43, 11, 59, 9, 56), (44, 11, 59, 9, 63)];
    for (flag, king, king_sq, rook, rook_sq) in rights {
        if (info >> flag) & 1 == 1 && ((a[king] >> king_sq) & 1 == 0 || (a[rook] >> rook_sq) & 1 == 0) {
            return false;
        }
    }
    let e = info & 0x7f;
    if e < 64 {
        if (seen >> e) & 1 == 1 {
            return false;
        }
        let behind = if f.white_to_move() {
            (40..48).contains(&e) && (a[6] >> (e - 8)) & 1 == 1
        } else {
            (16..24).contains(&e) && (a[0] >> (e + 8)) & 1 == 1
        };
        if !behind {
            return false;
        }
    }
    let other_king = if f.white_to_move() { a[11] } else { a[5] };
    let name = chess_engine::parsing::bitboard_to_lan(other_king);
    pseudo(f).iter().all(|m| m.to_string()[2..4] != name)
}

#[test]
fn legal_moves_keep_positions_valid() {
    let mut positions: Vec<Fen> = chess_engine::edge_cases::get_edge_cases();
    positions.push(Fen::from_str(KIWIPETE).unwrap());
    positions.push(Fen::from_str(CASTLES).unwrap());
    assert!(position_is_valid(&Fen::new()));
    assert!(position_is_valid(&positions[40]));
    let mut children = 0;
    for fen in positions {
        if !position_is_valid(&fen) {
            continue;
        }
        for m in legal(&fen) {
            let mut next = fen.clone_position();
            next.make_move(m);
            assert!(position_is_valid(&next), "{} after {}", fen.to_string(), m.to_string());
            assert!(chess_engine::perft::checked_perft(2, &next).is_some());
            children += 1;
        }
    }
    assert!(children > 500);
}

#[test]
fn invalid_positions_are_told_apart() {
    assert!(!position_is_valid(&Fen::from_str("4k3/8/8/8/8/8/8/8 w - - 0 1").unwrap()));
    assert!(!position_is_valid(&Fen::from_str("4k3/8/8/8/8/8/4R3/4K3 w - - 0 1").unwrap()));
    assert!(!position_is_valid(&Fen::from_str("4k3/8/8/8/8/8/8/4K3 w K - 0 1").unwrap()));
    assert!(position_is_valid(&Fen::from_str("4k3/8/8/8/4P3/8/8/4K3 b - e3 0 1").unwrap()));
    assert!(!position_is_valid(&Fen::from_str("4k3/8/8/8/8/8/8/4K3 b - e3 0 1").unwrap()));
}

#[test]
fn legal_moves_are_distinct() {
    let mut positions: Vec<Fen> = chess_engine::edge_cases::get_edge_cases();
    positions.push(Fen::from_str(KIWIPETE).unwrap());
    positions.push(Fen::from_str(CASTLES).unwrap());
    for fen in positions {
        if !fen.has_king() {
            continue;
        }
        let names: Vec<String> = legal(&fen).iter().map(|m| m.to_string()).collect();
        let mut sorted = names.clone();
        sorted.sort();
        sorted.dedup();
        assert_eq!(sorted.len(), names.len(), "{}", fen.to_string());
    }
}

#[test]
fn turn_field_sets_turn() {
    assert!(Fen::from_str(START).unwrap().white_to_move());
    assert!(!Fen::from_str("rnbqkbnr/pppppppp/8/8/4P3/8/PPPP1PPP/RNBQKBNR b KQkq e3 0 1").unwrap().white_to_move());
    assert!(Fen::from_str("8/8/8/8/8/8/8/8 w KQkq - 65535 65535").unwrap().white_to_move());
}

#[test]
fn written_fen_is_a_fixed_point() {
    for text in ["rnbqkbnr/pppppppp/8/8/8/8/PPPPPPPP/RNBQKBNR   w KQkq - 0 1", "8/8/8/8/8/8/8/8 b - - 00 007", KIWIPETE] {
        let written = Fen::from_str(text).unwrap().to_string();
        assert_eq!(Fen::from_str(&written).unwrap().to_string(), written);
    }
    assert_eq!(Fen::from_str("8/8/8/8/8/8/8/8 b - - 00 007").unwrap().to_string(), "8/8/8/8/8/8/8/8 b - - 0 7");
}
