use chess_engine::cli::{
    fen_command, menu_command, MenuAction, ReplyKind, DEPTH_ERROR, PERFT_ARGUMENTS_ERROR,
};
use chess_engine::fen::Fen;
use chess_engine::moves::MOVE_SQUARES_ERROR;
use chess_engine::parsing::{FIELDS_ERROR, TURN_ERROR};

const START: &str = "rnbqkbnr/pppppppp/8/8/8/8/PPPPPPPP/RNBQKBNR w KQkq - 0 1";
const KIWIPETE: &str = "r3k2r/p1ppqpb1/bn2pnp1/3PN3/1p2P3/2N2Q1p/PPPBBPPP/R3K2R w KQkq - 0 1";

fn run(fen: &Fen, input: &str) -> (Fen, ReplyKind, String) {
    let (next, reply) = fen_command(fen, input);
    (next, reply.kind, reply.text)
}

#[test]
fn menu_commands() {
    assert_eq!(menu_command("help"), MenuAction::Help);
    assert_eq!(menu_command("fen"), MenuAction::EnterFen);
    assert_eq!(menu_command("quit"), MenuAction::Quit);
    assert_eq!(menu_command("Quit"), MenuAction::Nothing);
    assert_eq!(menu_command("fen "), MenuAction::Nothing);
    assert_eq!(menu_command(""), MenuAction::Nothing);
}

#[test]
fn position_commands() {
    let start = Fen::new();
    let (next, kind, text) = run(&start, &format!("pos {}", KIWIPETE));
    assert_eq!(kind, ReplyKind::Board);
    assert_eq!(text, "");
    assert_eq!(next.to_string(), KIWIPETE);
    let (back, kind, _) = run(&next, "pos default");
    assert_eq!(kind, ReplyKind::Board);
    assert_eq!(back.to_string(), START);
    let (same, kind, text) = run(&next, "pos 8/8/8 w - - 0 1");
    assert_eq!(kind, ReplyKind::Text);
    assert_eq!(text, "Error: Board must have 8 rows");
    assert_eq!(same.array, next.array);
    let (_, kind, text) = run(&start, &format!("pos {}", START.replace(" w ", " x ")));
    assert_eq!((kind, text.as_str()), (ReplyKind::Text, TURN_ERROR));
    let (_, kind, _) = run(&start, "pos");
    assert_eq!(kind, ReplyKind::Stop);
    let (_, kind, _) = run(&start, "pos\u{e9}x");
    assert_eq!(kind, ReplyKind::Stop);
    let (_, kind, text) = run(&start, "position");
    assert_eq!((kind, text.as_str()), (ReplyKind::Text, FIELDS_ERROR));
    let (_, kind, _) = run(&start, "pos 8/8/8/8/8/8/8/8p w - - 0 1");
    assert_eq!(kind, ReplyKind::Stop);
}

#[test]
fn move_commands() {
    let start = Fen::new();
    let (next, kind, _) = run(&start, "move e2e4");
    assert_eq!(kind, ReplyKind::Board);
    assert_eq!(next.to_string(), "rnbqkbnr/pppppppp/8/8/4P3/8/PPPP1PPP/RNBQKBNR b KQkq e3 0 1");
    let (same, kind, text) = run(&start, "move e2e9");
    assert_eq!((kind, text.as_str()), (ReplyKind::Text, MOVE_SQUARES_ERROR));
    assert_eq!(same.array, start.array);
    let (_, kind, text) = run(&start, "move \u{e9}2e4");
    assert_eq!((kind, text.as_str()), (ReplyKind::Text, "Error: Move must have valid squares"));
    let (_, kind, text) = run(&start, "move z2\u{e9}");
    assert_eq!((kind, text.as_str()), (ReplyKind::Text, "Error: Move must have valid squares"));
    let (_, kind, _) = run(&start, "move e\u{e9}e4");
    assert_eq!(kind, ReplyKind::Stop);
    let (_, kind, text) = run(&start, "move e2e4\u{e9}");
    assert_eq!((kind, text.as_str()), (ReplyKind::Text, "Error: Move must have four or five characters"));
}

#[test]
fn listing_commands() {
    let start = Fen::new();
    let (_, kind, text) = run(&start, "moves");
    assert_eq!(kind, ReplyKind::Text);
    assert_eq!(text, start.get_moves().to_string());
    assert!(text.starts_with("h2h3, h2h4, g2g3, g2g4, "));
    let attacked = Fen::from_str("4k3/8/8/8/8/8/4r3/4K3 w - - 0 1").unwrap();
    let (_, kind, text) = run(&attacked, "moves");
    assert_eq!((kind, text.as_str()), (ReplyKind::Text, "e1f1, e1d1, e1e2, "));
    let (_, kind, text) = run(&start, "string");
    assert_eq!((kind, text.as_str()), (ReplyKind::Text, START));
    assert_eq!(run(&start, "board").1, ReplyKind::Board);
    assert_eq!(run(&start, "return").1, ReplyKind::Back);
    assert_eq!(run(&start, "quit").1, ReplyKind::Quit);
    assert_eq!(run(&start, "help").1, ReplyKind::Nothing);
    assert_eq!(run(&start, "").1, ReplyKind::Nothing);
    let no_king = Fen::from_str("4k3/8/8/8/8/8/8/8 w - - 0 1").unwrap();
    assert_eq!(run(&no_king, "moves").1, ReplyKind::Stop);
}

#[test]
fn perft_commands() {
    let start = Fen::new();
    let (next, kind, text) = run(&start, "perft 2");
    assert_eq!(kind, ReplyKind::Text);
    assert!(text.ends_with("Total: 400"));
    assert_eq!(text, chess_engine::perft::perft(2, &start).to_string());
    assert_eq!(next.array, start.array);
    let (_, kind, text) = run(&start, "perft +1");
    assert_eq!(kind, ReplyKind::Text);
    assert!(text.ends_with("Total: 20"));
    let (_, kind, text) = run(&start, "perft");
    assert_eq!((kind, text.as_str()), (ReplyKind::Text, PERFT_ARGUMENTS_ERROR));
    let (_, kind, text) = run(&start, "perft 1 2 3");
    assert_eq!((kind, text.as_str()), (ReplyKind::Text, PERFT_ARGUMENTS_ERROR));
    let (_, kind, text) = run(&start, "perft x");
    assert_eq!((kind, text.as_str()), (ReplyKind::Text, DEPTH_ERROR));
    let (_, kind, text) = run(&start, "perft -1");
    assert_eq!((kind, text.as_str()), (ReplyKind::Text, DEPTH_ERROR));
    let (_, kind, text) = run(&start, "perft 8/8/8/8/8/8/8/8 2");
    assert_eq!((kind, text.as_str()), (ReplyKind::Text, FIELDS_ERROR));
    let (_, kind, text) = run(&start, "perft x 3");
    assert_eq!((kind, text.as_str()), (ReplyKind::Text, FIELDS_ERROR));
    let (_, kind, text) = run(&start, "perft x y");
    assert_eq!((kind, text.as_str()), (ReplyKind::Text, DEPTH_ERROR));
    let (_, kind, _) = run(&start, "perft 8/8/8/8/8/8/8/8 w - - 0 1 2");
    assert_eq!(kind, ReplyKind::Stop);
    let (_, kind, text) = run(&start, "perft 8/8/8/8/8/8/8/8 x - - 0 1 2");
    assert_eq!(kind, ReplyKind::Text);
    assert_eq!(text, chess_engine::fen::Fen::from_str("8/8/8/8/8/8/8/8 x - - 0 1").unwrap_err());
    let (_, kind, text) = run(&start, "perft 0");
    assert_eq!((kind, text.as_str()), (ReplyKind::Text, DEPTH_ERROR));
    let stalemate = Fen::from_str("7k/5Q2/6K1/8/8/8/8/8 b - - 0 1").unwrap();
    let (_, kind, text) = run(&stalemate, "perft 3");
    assert_eq!((kind, text.as_str()), (ReplyKind::Text, "Total: 0"));
}

#[test]
fn perft_command_with_position() {
    let start = Fen::new();
    let text_fen = "4k3/8/8/8/8/8/4r3/4K3 w - - 0 1";
    let (next, kind, text) = run(&start, &format!("perft {} 1", text_fen));
    assert_eq!(kind, ReplyKind::Text);
    let expected = chess_engine::perft::perft(1, &Fen::from_str(text_fen).unwrap()).to_string();
    assert_eq!(text, expected);
    assert!(text.ends_with("Total: 3"));
    assert_eq!(next.array, start.array);
    let (_, kind, text) = run(&start, "perft rnbqkbnr/pppppppp/8/8/8/8/PPPPPPPP/RNBQKBNR  w KQkq - 0 1   2");
    assert_eq!(kind, ReplyKind::Text);
    assert!(text.ends_with("Total: 400"));
    let (_, kind, text) = run(&start, &format!("perft {} 0", text_fen));
    assert_eq!((kind, text.as_str()), (ReplyKind::Text, DEPTH_ERROR));
}
