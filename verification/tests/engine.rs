use chess_engine::fen::Fen;
use chess_engine::moves::Move;

#[test]
fn start_position_string() {
    let fen = Fen::new();
    assert_eq!(fen.to_string(), "rnbqkbnr/pppppppp/8/8/8/8/PPPPPPPP/RNBQKBNR w KQkq - 0 1");
}

#[test]
fn move_round_trip() {
    let m = Move::from_str("e2e4").unwrap();
    assert_eq!(m.to_string(), "e2e4");
    let p = Move::from_str("A7A8Q").unwrap();
    assert_eq!(p.to_string(), "a7a8q");
}
