use prokopakop::board::Game;
use prokopakop::board_move;
use prokopakop::pgn::{
    clean_moves_text, extract_header_value, matches_algebraic_notation, parse_algebraic_move,
    parse_moves, parse_pgn_lines, parse_result, GameResult, PgnParseError,
};

fn lines(text: &str) -> Vec<String> {
    text.lines().map(|l| l.to_string()).collect()
}

fn mv(s: &str) -> u16 {
    board_move::parse(s).unwrap()
}

#[test]
fn header_values_are_extracted() {
    assert_eq!(extract_header_value("[Result \"1-0\"]"), Some("1-0".to_string()));
    assert_eq!(extract_header_value("[Event \"\"]"), Some(String::new()));
    assert_eq!(extract_header_value("[Event \"open]"), None);
    assert_eq!(extract_header_value("[Event open]"), None);
}

#[test]
fn results_are_read() {
    assert!(matches!(parse_result("1-0"), Ok(GameResult::White)));
    assert!(matches!(parse_result(" 0-1 "), Ok(GameResult::Black)));
    assert!(matches!(parse_result("1/2-1/2"), Ok(GameResult::Draw)));
    assert!(matches!(parse_result("*"), Ok(GameResult::Draw)));
    match parse_result("2-0") {
        Err(PgnParseError::InvalidResult(s)) => assert_eq!(s, "2-0"),
        _ => panic!("expected an invalid result"),
    }
}

#[test]
fn comments_are_dropped() {
    assert_eq!(clean_moves_text("1. e4 {best by test} e5 ; a comment\n2. Nf3"), "1. e4  e5  2. Nf3");
    assert_eq!(clean_moves_text("a {b {c} d} e"), "a  e");
}

#[test]
fn algebraic_notation_is_matched() {
    let game = Game::new(None);
    assert!(matches_algebraic_notation(&game, mv("e2e4"), "e4"));
    assert!(!matches_algebraic_notation(&game, mv("e2e3"), "e4"));
    assert!(matches_algebraic_notation(&game, mv("g1f3"), "Nf3+"));
    assert!(!matches_algebraic_notation(&game, mv("g1f3"), "Nxf3"));
    assert_eq!(parse_algebraic_move(&game, "Nf3"), Some(mv("g1f3")));
    assert_eq!(parse_algebraic_move(&game, "Nc3!?"), Some(mv("b1c3")));
    assert_eq!(parse_algebraic_move(&game, "Ke2"), None);
    assert_eq!(parse_algebraic_move(&game, "O-O"), Some(mv("e1g1")));
    let two_knights = Game::new(Some("4k3/8/8/8/8/8/8/1N2K1N1 w - - 0 1"));
    assert_eq!(parse_algebraic_move(&two_knights, "Nbd2"), Some(mv("b1d2")));
    assert_eq!(parse_algebraic_move(&two_knights, "Ngf3"), Some(mv("g1f3")));
    let promotion = Game::new(Some("1r2k3/P7/8/8/8/8/8/4K3 w - - 0 1"));
    assert_eq!(parse_algebraic_move(&promotion, "a8=Q"), Some(mv("a7a8q")));
    assert_eq!(parse_algebraic_move(&promotion, "axb8=N#"), Some(mv("a7b8n")));
    let capture = Game::new(Some("4k3/8/8/3p4/4P3/8/8/4K3 w - - 0 1"));
    assert_eq!(parse_algebraic_move(&capture, "exd5"), Some(mv("e4d5")));
}

#[test]
fn move_sections_are_played() {
    let moves = parse_moves("1. e4 e5 2. Nf3 {develops} Nc6 3. Bb5 a6 1-0").unwrap();
    assert_eq!(
        moves,
        vec![mv("e2e4"), mv("e7e5"), mv("g1f3"), mv("b8c6"), mv("f1b5"), mv("a7a6")]
    );
    match parse_moves("1. e4 e5 2. Ke3") {
        Err(PgnParseError::InvalidMove(t)) => assert_eq!(t, "Ke3"),
        _ => panic!("expected an invalid move"),
    }
    match parse_moves("1. O-O") {
        Err(PgnParseError::InvalidMove(t)) => assert_eq!(t, "O-O"),
        _ => panic!("castling through pieces is refused"),
    }
}

#[test]
fn pgn_files_are_read() {
    let text = "[Event \"Casual\"]\n[Result \"1-0\"]\n[WhiteElo \"2000\"]\n[BlackElo \"2101\"]\n\n1. e4 e5 2. Nf3 Nc6\n3. Bb5 a6 1-0\n\n[Event \"No result header\"]\n\n1. d4 d5 *\n\n[Result \"1/2-1/2\"]\n1. c4 c5 1/2-1/2\n";
    let games = parse_pgn_lines(&lines(text)).unwrap();
    assert_eq!(games.len(), 2);
    assert_eq!(games[0].moves.len(), 6);
    assert!(matches!(games[0].result, GameResult::White));
    assert_eq!(games[0].average_elo, Some(2050));
    assert_eq!(games[1].moves, vec![mv("c2c4"), mv("c7c5")]);
    assert!(matches!(games[1].result, GameResult::Draw));
    assert_eq!(games[1].average_elo, None);
}

#[test]
fn pgn_errors_are_reported() {
    match parse_pgn_lines(&lines("[Result \"2-0\"]\n1. e4 1-0\n")) {
        Err(PgnParseError::InvalidResult(s)) => assert_eq!(s, "2-0"),
        _ => panic!("expected an invalid result"),
    }
    match parse_pgn_lines(&lines("[Result \"0-1\"]\n1. e5 0-1\n")) {
        Err(PgnParseError::InvalidMove(s)) => assert_eq!(s, "e5"),
        _ => panic!("expected an invalid move"),
    }
}
