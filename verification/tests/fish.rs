use chess_engine::fish::{centipawns_from_reply, fish_commands, is_stop_line, BESTMOVE, DEFAULT_NODES};

fn lines(texts: &[&str]) -> Vec<String> {
    texts.iter().map(|t| t.to_string()).collect()
}

#[test]
fn evaluation_commands() {
    let fen = "rnbqkbnr/pppppppp/8/8/8/8/PPPPPPPP/RNBQKBNR w KQkq - 0 1";
    assert_eq!(
        fish_commands(fen, Some(500)),
        vec![format!("position fen {}", fen), "go nodes 500".to_string()]
    );
    assert_eq!(fish_commands(fen, None)[1], "go nodes 1000000");
    assert_eq!(fish_commands("", Some(0)), vec!["position fen ".to_string(), "go nodes 0".to_string()]);
    assert_eq!(DEFAULT_NODES, 1000000);
    assert_eq!(BESTMOVE, "bestmove");
}

#[test]
fn score_from_reply() {
    let reply = lines(&[
        "info depth 1 seldepth 1 multipv 1 score cp 35 nodes 20",
        "info depth 10 seldepth 12 multipv 1 score cp -42 nodes 1000 nps 5000 pv e2e4",
        "bestmove e2e4 ponder e7e5",
    ]);
    assert_eq!(centipawns_from_reply(&reply), Some(-42));
    let plus = lines(&["info depth 2 seldepth 2 multipv 1 score cp +17 nodes 5", "bestmove a2a3"]);
    assert_eq!(centipawns_from_reply(&plus), Some(17));
    let spaced = lines(&["  info\tdepth 2  seldepth 2 multipv 1 score cp 8  ", "bestmove a2a3"]);
    assert_eq!(centipawns_from_reply(&spaced), Some(8));
}

#[test]
fn score_limits() {
    let reply = |field: &str| lines(&[&format!("info depth 1 seldepth 1 multipv 1 score cp {}", field), "bestmove"]);
    assert_eq!(centipawns_from_reply(&reply("2147483647")), Some(i32::MAX));
    assert_eq!(centipawns_from_reply(&reply("-2147483648")), Some(i32::MIN));
    assert_eq!(centipawns_from_reply(&reply("2147483648")), None);
    assert_eq!(centipawns_from_reply(&reply("-2147483649")), None);
    assert_eq!(centipawns_from_reply(&reply("99999999999999999999")), None);
    assert_eq!(centipawns_from_reply(&reply("0007")), Some(7));
    assert_eq!(centipawns_from_reply(&reply("-0")), Some(0));
}

#[test]
fn malformed_replies() {
    assert_eq!(centipawns_from_reply(&lines(&[])), None);
    assert_eq!(centipawns_from_reply(&lines(&["bestmove e2e4"])), None);
    assert_eq!(centipawns_from_reply(&lines(&["info depth 1 score cp 5", "bestmove e2e4"])), None);
    let field = |f: &str| lines(&[&format!("a b c d e f g h i {}", f), "bestmove"]);
    assert_eq!(field("12"), lines(&["a b c d e f g h i 12", "bestmove"]));
    assert_eq!(centipawns_from_reply(&field("12")), Some(12));
    assert_eq!(centipawns_from_reply(&field("-")), None);
    assert_eq!(centipawns_from_reply(&field("+")), None);
    assert_eq!(centipawns_from_reply(&field("1x")), None);
    assert_eq!(centipawns_from_reply(&field("--1")), None);
    assert_eq!(centipawns_from_reply(&field("mate")), None);
}

#[test]
fn stop_line_is_the_first_bestmove() {
    assert!(is_stop_line("bestmove e2e4 ponder e7e5", "bestmove"));
    assert!(is_stop_line("bestmove", "bestmove"));
    assert!(!is_stop_line("info depth 1 bestmove", "bestmove"));
    assert!(!is_stop_line("best", "bestmove"));
    assert!(is_stop_line("anything", ""));
}
