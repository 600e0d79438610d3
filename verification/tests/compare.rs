use chess_engine::compare::{compare_perft, PerftComparison};
use chess_engine::fen::Fen;
use chess_engine::moves::{Move, Moves, PerftResult};
use chess_engine::perft::perft;

fn mv(text: &str) -> Move {
    Move::from_str(text).unwrap()
}

fn result(moves: &[(&str, usize)]) -> PerftResult {
    let list: Vec<Move> = moves.iter().map(|(m, _)| mv(m)).collect();
    let counts: Vec<usize> = moves.iter().map(|(_, c)| *c).collect();
    let total = counts.iter().sum();
    PerftResult::new(Moves::new(list, moves.len()), counts, total)
}

#[test]
fn compare_perft_outcomes() {
    let ours = result(&[("e2e4", 20), ("d2d4", 20), ("g1f3", 20)]);
    assert_eq!(compare_perft(&ours, &result(&[("g1f3", 20), ("e2e4", 20), ("d2d4", 20)])), PerftComparison::Agree);
    assert_eq!(
        compare_perft(&ours, &result(&[("e2e4", 20), ("d2d4", 21), ("g1f3", 19)])),
        PerftComparison::CountDiffers(mv("d2d4"), 21, 20)
    );
    assert_eq!(
        compare_perft(&ours, &result(&[("e2e4", 20), ("c2c4", 20), ("d2d4", 20), ("g1f3", 20)])),
        PerftComparison::OnlyTheirs(mv("c2c4"))
    );
    assert_eq!(compare_perft(&ours, &result(&[("e2e4", 20), ("g1f3", 20)])), PerftComparison::OnlyOurs(mv("d2d4")));
    let start = perft(2, &Fen::new());
    assert_eq!(compare_perft(&start, &perft(2, &Fen::new())), PerftComparison::Agree);
}
