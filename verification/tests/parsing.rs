use chess_engine::board::{KING_W, PAWN_W, ROOK_W, WHITE, BLACK, INFO, PAWN_B};
use chess_engine::parsing::{
    board_to_fen_notation, bitboard_to_lan, char_to_piece, enpassant_to_info, fen_notation_to_board,
    fen_to_string, file_to_lan, fullmove_to_info, halfmove_to_info, info_to_enpassant,
    info_to_fullmove, info_to_halfmove, is_valid_lan, lan_to_bitboard, lan_to_file, lan_to_rank,
    piece_to_char, rank_to_lan, string_to_fen, string_to_fen_stops, BOARD_PIECE_ERROR,
    BOARD_ROWS_ERROR, BOARD_ROW_LENGTH_ERROR, CASTLE_ERROR, ENPASSANT_ERROR, FIELDS_ERROR,
    FULLMOVE_NUMBER_ERROR, FULLMOVE_RANGE_ERROR, HALFMOVE_NUMBER_ERROR, HALFMOVE_RANGE_ERROR,
    TURN_ERROR,
};

const START: &str = "rnbqkbnr/pppppppp/8/8/8/8/PPPPPPPP/RNBQKBNR w KQkq - 0 1";
const START_BOARD: &str = "rnbqkbnr/pppppppp/8/8/8/8/PPPPPPPP/RNBQKBNR";

#[test]
fn valid_lan_squares() {
    assert!(is_valid_lan("e4"));
    assert!(is_valid_lan("a1"));
    assert!(is_valid_lan("h8"));
    assert!(!is_valid_lan("i1"));
    assert!(!is_valid_lan("a9"));
    assert!(!is_valid_lan("e"));
    assert!(!is_valid_lan("e44"));
    assert!(!is_valid_lan(""));
    assert!(!is_valid_lan("\u{e9}"));
    assert!(!is_valid_lan("E4"));
    assert!(!is_valid_lan("E4"));
}

#[test]
fn files_and_ranks() {
    assert_eq!(lan_to_file('a'), 7);
    assert_eq!(lan_to_file('e'), 3);
    assert_eq!(lan_to_file('h'), 0);
    assert_eq!(lan_to_file('x'), usize::MAX);
    assert_eq!(file_to_lan(7), "a");
    assert_eq!(file_to_lan(0), "h");
    assert_eq!(file_to_lan(8), "-");
    assert_eq!(lan_to_rank('1'), 0);
    assert_eq!(lan_to_rank('8'), 7);
    assert_eq!(lan_to_rank('9'), usize::MAX);
    assert_eq!(rank_to_lan(0), "1");
    assert_eq!(rank_to_lan(7), "8");
    assert_eq!(rank_to_lan(8), "-");
    for file in 0..8usize {
        let name = file_to_lan(file);
        assert_eq!(lan_to_file(name.chars().next().unwrap()), file);
    }
    for rank in 0..8usize {
        let name = rank_to_lan(rank);
        assert_eq!(lan_to_rank(name.chars().next().unwrap()), rank);
    }
}

#[test]
fn bitboards_and_squares() {
    assert_eq!(bitboard_to_lan(1), "h1");
    assert_eq!(bitboard_to_lan(1u64 << 63), "a8");
    assert_eq!(bitboard_to_lan(1u64 << 27), "e4");
    assert_eq!(bitboard_to_lan(0b1100), "f1");
    assert_eq!(bitboard_to_lan(0), "h-");
    assert_eq!(lan_to_bitboard("a1"), 1u64 << 7);
    assert_eq!(lan_to_bitboard("h8"), 1u64 << 56);
    assert_eq!(lan_to_bitboard("e4"), 1u64 << 27);
    for i in 0..64 {
        let b = 1u64 << i;
        assert_eq!(lan_to_bitboard(&bitboard_to_lan(b)), b);
    }
}

#[test]
fn pieces_and_chars() {
    assert_eq!(piece_to_char(0), 'P');
    assert_eq!(piece_to_char(3), 'R');
    assert_eq!(piece_to_char(5), 'K');
    assert_eq!(piece_to_char(6), 'p');
    assert_eq!(piece_to_char(11), 'k');
    assert_eq!(piece_to_char(12), '-');
    assert_eq!(char_to_piece('N'), 1);
    assert_eq!(char_to_piece('q'), 10);
    assert_eq!(char_to_piece('x'), usize::MAX);
    for piece in 0..12usize {
        assert_eq!(char_to_piece(piece_to_char(piece)), piece);
    }
}

#[test]
fn info_words() {
    assert_eq!(halfmove_to_info(5), 1280);
    assert_eq!(info_to_halfmove(1280), 5);
    assert_eq!(info_to_halfmove(u64::MAX), 0xffff);
    assert_eq!(fullmove_to_info(3), 3u64 << 24);
    assert_eq!(info_to_fullmove(u64::MAX), 0xffff);
    assert_eq!(enpassant_to_info(1u64 << 40), 40);
    assert_eq!(enpassant_to_info(0), 64);
    assert_eq!(info_to_enpassant(40), 1u64 << 40);
    assert_eq!(info_to_enpassant(64), 0);
    assert_eq!(info_to_enpassant(0x7f), 0);
    assert_eq!(info_to_enpassant(0x80 | 5), 1u64 << 5);
}

#[test]
fn counters_round_trip() {
    for n in [0u64, 1, 17, 255, 256, 40000, 65535] {
        assert_eq!(info_to_halfmove(halfmove_to_info(n)), n);
        assert_eq!(info_to_fullmove(fullmove_to_info(n)), n);
    }
}

#[test]
fn enpassant_round_trip() {
    for k in 0..64u64 {
        assert_eq!(enpassant_to_info(info_to_enpassant(k)), k);
    }
}

#[test]
fn start_board() {
    let a = fen_notation_to_board(START_BOARD).unwrap();
    assert_eq!(a[PAWN_W], 0xff00);
    assert_eq!(a[PAWN_B], 0x00ff_0000_0000_0000);
    assert_eq!(a[ROOK_W], 0x81);
    assert_eq!(a[KING_W], 1u64 << 3);
    assert_eq!(a[WHITE], 0xffff);
    assert_eq!(a[BLACK], 0xffff_0000_0000_0000);
    assert_eq!(a[INFO], 0);
    assert_eq!(board_to_fen_notation(a), START_BOARD);
}

#[test]
fn board_errors() {
    assert_eq!(fen_notation_to_board("8/8/8").unwrap_err(), BOARD_ROWS_ERROR);
    assert_eq!(fen_notation_to_board("8/8/8/8/8/8/8/7x").unwrap_err(), BOARD_PIECE_ERROR);
    assert_eq!(fen_notation_to_board("8/8/8/8/8/8/8/7").unwrap_err(), BOARD_ROW_LENGTH_ERROR);
    assert_eq!(fen_notation_to_board("9/8/8/8/8/8/8/8").unwrap_err(), BOARD_ROW_LENGTH_ERROR);
    assert_eq!(BOARD_ROWS_ERROR, "Error: Board must have 8 rows");
    assert_eq!(BOARD_ROW_LENGTH_ERROR, "Error: Each row of the board must have 8 entries");
}

#[test]
fn empty_board_text() {
    let a = fen_notation_to_board("8/8/8/8/8/8/8/8").unwrap();
    assert_eq!(a, [0u64; 15]);
    assert_eq!(board_to_fen_notation(a), "8/8/8/8/8/8/8/8");
}

#[test]
fn start_string() {
    let a = string_to_fen(START).unwrap();
    assert_eq!(a[INFO] & 0xff, 64);
    assert_eq!(fen_to_string(a), START);
}

#[test]
fn fen_with_extra_white_space() {
    let a = string_to_fen("  rnbqkbnr/pppppppp/8/8/8/8/PPPPPPPP/RNBQKBNR   w KQkq -\t0 1 ").unwrap();
    assert_eq!(fen_to_string(a), START);
}

#[test]
fn fen_errors() {
    let board = START_BOARD;
    let with = |rest: &str| format!("{} {}", board, rest);
    assert_eq!(string_to_fen(&with("w KQkq - 0")).unwrap_err(), FIELDS_ERROR);
    assert_eq!(string_to_fen(&with("w KQkq - 0 1 2")).unwrap_err(), FIELDS_ERROR);
    assert_eq!(string_to_fen("8/8/8 w - - 0 1").unwrap_err(), BOARD_ROWS_ERROR);
    assert_eq!(string_to_fen(&with("x KQkq - 0 1")).unwrap_err(), TURN_ERROR);
    assert_eq!(string_to_fen(&with("w QK - 0 1")).unwrap_err(), CASTLE_ERROR);
    assert_eq!(string_to_fen(&with("w KK - 0 1")).unwrap_err(), CASTLE_ERROR);
    assert_eq!(string_to_fen(&with("w KQkq e9 0 1")).unwrap_err(), ENPASSANT_ERROR);
    assert_eq!(string_to_fen(&with("w KQkq e 0 1")).unwrap_err(), ENPASSANT_ERROR);
    assert_eq!(string_to_fen(&with("w KQkq - a 1")).unwrap_err(), HALFMOVE_NUMBER_ERROR);
    assert_eq!(string_to_fen(&with("w KQkq - -1 1")).unwrap_err(), HALFMOVE_NUMBER_ERROR);
    assert_eq!(string_to_fen(&with("w KQkq - 65536 1")).unwrap_err(), HALFMOVE_RANGE_ERROR);
    assert_eq!(string_to_fen(&with("w KQkq - 0 x")).unwrap_err(), FULLMOVE_NUMBER_ERROR);
    assert_eq!(string_to_fen(&with("w KQkq - 0 70000")).unwrap_err(), FULLMOVE_RANGE_ERROR);
    assert_eq!(FIELDS_ERROR, "Error: FEN does not have 6 fields");
    assert_eq!(CASTLE_ERROR, "Error: Castle rights must be '-', or a subset of 'KQkq'");
}

#[test]
fn fen_counter_limits() {
    let a = string_to_fen(&format!("{} b - e3 65535 65535", START_BOARD)).unwrap();
    assert_eq!(info_to_halfmove(a[INFO]), 65535);
    assert_eq!(info_to_fullmove(a[INFO]), 65535);
    assert_eq!(info_to_enpassant(a[INFO]), lan_to_bitboard("e3"));
    assert_eq!(fen_to_string(a), format!("{} b - e3 65535 65535", START_BOARD));
}

#[test]
fn fen_castle_subsets() {
    for castle in ["-", "K", "Q", "k", "q", "KQ", "Kk", "Kq", "Qk", "Qq", "kq", "KQk", "KQq", "Kkq",
        "Qkq", "KQkq"] {
        let text = format!("{} w {} - 0 1", START_BOARD, castle);
        let a = string_to_fen(&text).unwrap();
        assert_eq!(fen_to_string(a), text);
    }
}

#[test]
fn parse_stops() {
    assert!(!string_to_fen_stops(START));
    assert!(string_to_fen_stops(&format!("{} w KQkq - 99999999999999999999 1", START_BOARD)));
    assert!(string_to_fen_stops(&format!("{} w KQkq - 0 18446744073709551616", START_BOARD)));
    assert!(!string_to_fen_stops(&format!("{} w KQkq - 0 18446744073709551615", START_BOARD)));
    assert!(string_to_fen_stops(&format!("{} w KQkq \u{e9} 0 1", START_BOARD)));
    assert!(!string_to_fen_stops(&format!("{} x KQkq - 99999999999999999999 1", START_BOARD)));
    assert!(!string_to_fen_stops(&format!("{} w KQkq - 70000 99999999999999999999", START_BOARD)));
    assert_eq!(
        string_to_fen(&format!("{} w KQkq - 0 18446744073709551615", START_BOARD)).unwrap_err(),
        FULLMOVE_RANGE_ERROR
    );
}

#[test]
fn boards_running_past_the_last_square() {
    assert!(string_to_fen_stops("8/8/8/8/8/8/8/8p w - - 0 1"));
    assert!(string_to_fen_stops("99999999p/8/8/8/8/8/8/8 w - - 0 1"));
    assert!(!string_to_fen_stops("8/8/8/8/8/8/8/x8p w - - 0 1"));
    assert!(!string_to_fen_stops("8/8/8/8/8/8/7/8p w - - 0 1"));
    assert!(!string_to_fen_stops("8/8/8/8/8/8/8/8p w - -"));
    assert_eq!(fen_notation_to_board("8p/8/8/8/8/8/8/8").unwrap_err(), BOARD_ROW_LENGTH_ERROR);
    assert_eq!(string_to_fen("8/8/8/8/8/8/8/x8p w - - 0 1").unwrap_err(), BOARD_PIECE_ERROR);
    assert_eq!(string_to_fen("8/8/8/8/8/8/7/8p w - - 0 1").unwrap_err(), BOARD_ROW_LENGTH_ERROR);
}

#[test]
fn board_roundtrip_ignores_colour_boards() {
    let mut array = string_to_fen(START).unwrap();
    array[WHITE] = 0x1234;
    array[BLACK] = u64::MAX;
    let text = board_to_fen_notation(array);
    assert_eq!(text, "rnbqkbnr/pppppppp/8/8/8/8/PPPPPPPP/RNBQKBNR");
    let back = fen_notation_to_board(&text).unwrap();
    assert_eq!(back[..12], array[..12]);
}

#[test]
fn board_text_rows_are_well_formed() {
    for text in [START, "8/8/8/8/8/8/8/8 w - - 0 1", "r3k2r/p1ppqpb1/bn2pnp1/3PN3/1p2P3/2N2Q1p/PPPBBPPP/R3K2R w KQkq - 0 1"] {
        let board = board_to_fen_notation(string_to_fen(text).unwrap());
        let rows: Vec<&str> = board.split('/').collect();
        assert_eq!(rows.len(), 8);
        for row in rows {
            let chars: Vec<char> = row.chars().collect();
            let mut width = 0;
            for (i, c) in chars.iter().enumerate() {
                if c.is_ascii_digit() {
                    assert!(('1'..='8').contains(c));
                    assert!(i + 1 == chars.len() || !chars[i + 1].is_ascii_digit());
                    width += c.to_digit(10).unwrap();
                } else {
                    assert!("PNBRQKpnbrqk".contains(*c));
                    width += 1;
                }
            }
            assert_eq!(width, 8);
        }
    }
}
