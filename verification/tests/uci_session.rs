use prokopakop::board_move;
use prokopakop::cli::GUICommand;
use prokopakop::controller::{GameController, MoveResultType, OptionError, OptionOutcome};

const START_FEN: &str = "rnbqkbnr/pppppppp/8/8/8/8/PPPPPPPP/RNBQKBNR w KQkq - 0 1";
const KIWIPETE: &str = "r3k2r/p1ppqpb1/bn2pnp1/3PN3/1p2P3/2N2Q1p/PPPBBPPP/R3K2R w KQkq - 0 1";

fn total(breakdown: &[(u16, usize)]) -> usize {
    breakdown.iter().map(|(_, c)| c).sum()
}

#[test]
fn new_controller_defaults() {
    let controller = GameController::new();
    assert!(controller.perft_hash);
    assert_eq!(controller.hash_table_size, 128);
    assert_eq!(controller.move_overhead, 10);
    assert_eq!(controller.threads, 1);
    assert!(!controller.is_initialized());
    assert_eq!(controller.game.get_fen(), START_FEN);
}

#[test]
fn initialize_marks_session_ready() {
    let mut controller = GameController::new();
    controller.initialize();
    assert!(controller.is_initialized());
    let key = controller.game.zobrist_key();
    assert!(!controller.position_history.is_threefold_repetition(key));
}

#[test]
fn perft_breakdown_without_hashing() {
    let mut controller = GameController::new();
    controller.perft_hash = false;
    let one = controller.perft(1);
    assert_eq!(one.len(), 20);
    assert!(one.iter().all(|(_, c)| *c == 1));
    let three = controller.perft(3);
    assert_eq!(three.len(), 20);
    assert_eq!(total(&three), 8902);
    let e2e4 = board_move::parse("e2e4").unwrap();
    let entry = three.iter().find(|(m, _)| *m == e2e4).unwrap();
    assert_eq!(entry.1, 600);
}

#[test]
fn perft_breakdown_with_hashing_matches() {
    let mut controller = GameController::new();
    controller.set_board_from_fen(KIWIPETE);
    assert!(controller.perft_hash);
    let hashed = controller.perft(3);
    assert_eq!(total(&hashed), 97862);
    controller.perft_hash = false;
    let plain = controller.perft(3);
    assert_eq!(hashed, plain);
    assert_eq!(controller.game.get_fen(), KIWIPETE);
}

#[test]
fn perft_depth_zero_counts_each_move_once() {
    let mut controller = GameController::new();
    let zero = controller.perft(0);
    assert_eq!(zero.len(), 20);
    assert!(zero.iter().all(|(_, c)| *c == 1));
}

#[test]
fn try_move_piece_outcomes() {
    let mut controller = GameController::new();
    controller.reset_board();
    assert_eq!(controller.try_move_piece("e2e4"), MoveResultType::Success);
    assert_eq!(
        controller.game.get_fen(),
        "rnbqkbnr/pppppppp/8/8/4P3/8/PPPP1PPP/RNBQKBNR b KQkq e3 0 1"
    );
    assert_eq!(controller.try_move_piece("e2e4"), MoveResultType::InvalidMove);
    assert_eq!(controller.try_move_piece("zz"), MoveResultType::InvalidNotation);
    let before = controller.game.get_fen();
    assert_eq!(controller.try_move_piece("i7i5"), MoveResultType::InvalidNotation);
    assert_eq!(controller.try_move_piece("e7e9"), MoveResultType::InvalidNotation);
    assert_eq!(controller.game.get_fen(), before);
    assert_eq!(controller.try_move_piece("e7e5"), MoveResultType::Success);
}

#[test]
fn moves_off_the_board_are_wrong_notation() {
    let mut controller = GameController::new();
    controller.reset_board();
    assert_eq!(controller.try_move_piece("i2i4"), MoveResultType::InvalidNotation);
    assert_eq!(controller.game.get_fen(), "rnbqkbnr/pppppppp/8/8/8/8/PPPPPPPP/RNBQKBNR w KQkq - 0 1");
}

#[test]
fn repeated_positions_are_detected() {
    let mut controller = GameController::new();
    controller.reset_board();
    for m in ["g1f3", "g8f6", "f3g1"] {
        assert_eq!(controller.try_move_piece(m), MoveResultType::Success);
    }
    let once = controller.game.zobrist_key();
    assert!(!controller.position_history.is_threefold_repetition(once));
    for m in ["f6g8", "g1f3", "g8f6", "f3g1"] {
        assert_eq!(controller.try_move_piece(m), MoveResultType::Success);
    }
    assert_eq!(controller.game.zobrist_key(), once);
    assert!(!controller.position_history.is_threefold_repetition(once));
    assert_eq!(controller.try_move_piece("f6g8"), MoveResultType::Success);
    let start_key = controller.game.zobrist_key();
    assert!(controller.position_history.is_threefold_repetition(start_key));
    controller.position_history.pop();
    assert!(!controller.position_history.is_threefold_repetition(start_key));
    controller.position_history.pop();
    controller.position_history.pop();
    controller.position_history.pop();
    controller.position_history.pop();
    assert!(!controller.position_history.is_threefold_repetition(start_key));
}

#[test]
fn set_option_changes_settings() {
    let mut controller = GameController::new();
    assert_eq!(controller.set_option("Move Overhead", "100"), OptionOutcome::Applied);
    assert_eq!(controller.move_overhead, 100);
    assert_eq!(
        controller.set_option("Move Overhead", "5001"),
        OptionOutcome::Rejected(OptionError::MoveOverheadRange)
    );
    assert_eq!(
        controller.set_option("move overhead", "abc"),
        OptionOutcome::Rejected(OptionError::MoveOverheadNumber)
    );
    assert_eq!(controller.move_overhead, 100);
    assert_eq!(controller.set_option("PerftHash", "FALSE"), OptionOutcome::Applied);
    assert!(!controller.perft_hash);
    assert_eq!(
        controller.set_option("PerftHash", "maybe"),
        OptionOutcome::Rejected(OptionError::PerftHashValue)
    );
    assert_eq!(controller.set_option("Hash", "64"), OptionOutcome::HashResized(64));
    assert_eq!(
        controller.set_option("Hash", "0"),
        OptionOutcome::Rejected(OptionError::HashRange)
    );
    assert_eq!(
        controller.set_option("Threads", "0"),
        OptionOutcome::Rejected(OptionError::ThreadsRange)
    );
    assert_eq!(controller.hash_table_size, 64);
    assert_eq!(
        controller.set_option("Hash", "33554433"),
        OptionOutcome::Rejected(OptionError::HashRange)
    );
    assert_eq!(
        controller.set_option("Hash", "-1"),
        OptionOutcome::Rejected(OptionError::HashNumber)
    );
    assert_eq!(controller.set_option("Threads", "+8"), OptionOutcome::Applied);
    assert_eq!(controller.threads, 8);
    assert_eq!(
        controller.set_option("Threads", "2000"),
        OptionOutcome::Rejected(OptionError::ThreadsRange)
    );
    assert_eq!(
        controller.set_option("Threads", ""),
        OptionOutcome::Rejected(OptionError::ThreadsNumber)
    );
    assert_eq!(controller.set_option("NNUE", "net.bin"), OptionOutcome::LoadNetwork);
    assert_eq!(
        controller.set_option("Ponder", "true"),
        OptionOutcome::Rejected(OptionError::UnknownOption)
    );
}

#[test]
fn gui_commands_are_recognised() {
    assert!(matches!(GUICommand::parse("uci\n"), GUICommand::UCI));
    assert!(matches!(GUICommand::parse("  isready  "), GUICommand::IsReady));
    assert!(matches!(GUICommand::parse("ucinewgame"), GUICommand::MovePosition(None)));
    assert!(matches!(GUICommand::parse("position startpos"), GUICommand::MovePosition(None)));
    match GUICommand::parse("position startpos moves e2e4 e7e5") {
        GUICommand::MovePosition(Some(moves)) => assert_eq!(moves, vec!["e2e4", "e7e5"]),
        _ => panic!("expected a move list"),
    }
    match GUICommand::parse("position startpos moves") {
        GUICommand::MovePosition(Some(moves)) => assert!(moves.is_empty()),
        _ => panic!("expected an empty move list"),
    }
    match GUICommand::parse(&format!("position fen {}", KIWIPETE)) {
        GUICommand::FenPosition(fen) => assert_eq!(fen, KIWIPETE),
        _ => panic!("expected a FEN"),
    }
    match GUICommand::parse("setoption name Move Overhead value 30") {
        GUICommand::SetOption(name, value) => {
            assert_eq!(name, "Move Overhead");
            assert_eq!(value, "30");
        }
        _ => panic!("expected an option"),
    }
    match GUICommand::parse("setoption name Clear Hash") {
        GUICommand::SetOption(name, value) => {
            assert_eq!(name, "Clear Hash");
            assert_eq!(value, "");
        }
        _ => panic!("expected a button option"),
    }
    match GUICommand::parse("setoption name value 5") {
        GUICommand::Invalid(text) => assert_eq!(text, "setoption name  value 5"),
        _ => panic!("expected an invalid option"),
    }
    match GUICommand::parse("go perft 3") {
        GUICommand::Perft(depth) => assert_eq!(depth, "3"),
        _ => panic!("expected perft"),
    }
    match GUICommand::parse("go wtime 1000 btime 900") {
        GUICommand::Search(params) => assert_eq!(params, vec!["wtime", "1000", "btime", "900"]),
        _ => panic!("expected a search"),
    }
    assert!(matches!(GUICommand::parse("stop"), GUICommand::Stop));
    assert!(matches!(GUICommand::parse("quit"), GUICommand::Quit));
    assert!(matches!(GUICommand::parse("eval"), GUICommand::Eval));
    assert!(matches!(GUICommand::parse("joke"), GUICommand::Joke));
    match GUICommand::parse("hello there\n") {
        GUICommand::Invalid(text) => assert_eq!(text, "hello there\n"),
        _ => panic!("expected an invalid command"),
    }
    let fen_roundtrip = GUICommand::parse(&format!("position fen {}", START_FEN));
    assert!(matches!(fen_roundtrip, GUICommand::FenPosition(_)));
}
