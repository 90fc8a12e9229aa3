use prokopakop::board::Game;
use prokopakop::controller::GameController;
use std::collections::HashMap;

const POSITIONS: [&str; 5] = [
    "r3k2r/p1ppqpb1/bn2pnp1/3PN3/1p2P3/2N2Q1p/PPPBBPPP/R3K2R w KQkq - 0 1",
    "8/2p5/3p4/KP5r/1R3p1k/8/4P1P1/8 w - - 0 1",
    "r3k2r/Pppp1ppp/1b3nbN/nP6/BBP1P3/q4N2/Pp1P2PP/R2Q1RK1 w kq - 0 1",
    "rnbq1k1r/pp1Pbppp/2p5/8/2B5/8/PPP1NnPP/RNBQK2R w KQ - 1 8",
    "r4rk1/1pp1qppp/p1np1n2/2b1p1B1/2B1P1b1/P1NP1N2/1PP1QPPP/R4RK1 w - - 0 10",
];

fn zobrist_consistency_recursive(
    game: &mut Game,
    depth: usize,
    seen: &mut HashMap<u64, String>,
    failures: &mut Vec<String>,
) {
    if depth == 0 {
        return;
    }
    let key = game.zobrist_key();
    let fen = game.get_fen();
    // The key covers placement, side, castling rights and en-passant
    // square; the move clocks at the end of the FEN are not part of it.
    let position: String = fen.split_whitespace().take(4).collect::<Vec<_>>().join(" ");
    if let Some(previous) = seen.get(&key) {
        if previous != &position {
            failures.push(format!("collision: {} vs {}", previous, position));
        }
    } else {
        seen.insert(key, position);
    }
    let (_, moves) = game.get_moves();
    for m in moves {
        game.make_move(m);
        zobrist_consistency_recursive(game, depth - 1, seen, failures);
        game.unmake_move();
        if game.zobrist_key() != key {
            failures.push(format!("key not restored after {}", m));
        }
        if game.get_fen() != fen {
            failures.push(format!("position not restored after {}", m));
        }
    }
}

#[test]
fn test_zobrist_key_consistency() {
    let mut controller = GameController::new();
    for position in POSITIONS {
        controller.set_board_from_fen(position);
        let mut seen = HashMap::new();
        let mut failures = Vec::new();
        zobrist_consistency_recursive(&mut controller.game, 4, &mut seen, &mut failures);
        assert!(failures.is_empty(), "{}: {}", position, failures.join("\n"));
    }
}

fn transpositions_recursive(
    game: &mut Game,
    depth: usize,
    seen: &mut HashMap<u64, String>,
    found: &mut usize,
) {
    if depth == 0 {
        return;
    }
    let key = game.zobrist_key();
    let fen = game.get_fen();
    if let Some(previous) = seen.get(&key) {
        if previous == &fen {
            *found += 1;
        }
    } else {
        seen.insert(key, fen);
    }
    let (_, moves) = game.get_moves();
    for m in moves {
        game.make_move(m);
        transpositions_recursive(game, depth - 1, seen, found);
        game.unmake_move();
    }
}

#[test]
fn test_zobrist_key_transposition_detection() {
    let mut controller = GameController::new();
    controller.reset_board();
    let mut seen = HashMap::new();
    let mut found = 0;
    transpositions_recursive(&mut controller.game, 4, &mut seen, &mut found);
    assert!(found > 0, "Expected to find some transpositions in the opening");
}

#[test]
fn test_position() {
    let mut controller = GameController::new();
    for position in POSITIONS {
        controller.set_board_from_fen(position);
        let generated = controller.game.get_fen();
        let given_parts: Vec<&str> = position.split_whitespace().collect();
        let generated_parts: Vec<&str> = generated.split_whitespace().collect();
        assert_eq!(given_parts[0], generated_parts[0], "Piece placement mismatch for position: {}", position);
        assert_eq!(given_parts[1], generated_parts[1], "Active color mismatch for position: {}", position);
        assert_eq!(given_parts[2], generated_parts[2], "Castling rights mismatch for position: {}", position);
        assert_eq!(given_parts[3], generated_parts[3], "En passant mismatch for position: {}", position);
        assert_eq!(given_parts[4], generated_parts[4], "Halfmove clock mismatch for position: {}", position);
        assert_eq!(given_parts[5], generated_parts[5], "Fullmove number mismatch for position: {}", position);
    }
    let starting_fen = "rnbqkbnr/pppppppp/8/8/8/8/PPPPPPPP/RNBQKBNR w KQkq - 0 1";
    controller.set_board_from_fen(starting_fen);
    assert_eq!(starting_fen, controller.game.get_fen(), "Starting position FEN mismatch");
}

#[test]
fn positions_are_consistent() {
    assert!(Game::new(None).is_consistent());
    for position in POSITIONS {
        assert!(Game::new(Some(position)).is_consistent());
    }
    assert!(!Game::new(Some("8/8/8/8/8/8/8/8 w - - 0 1")).is_consistent());
    assert!(!Game::new(Some("4k3/8/8/8/8/8/8/4K2R w Q - 0 1")).is_consistent());
    assert!(!Game::new(Some("4k3/4R3/8/8/8/8/8/4K3 w - - 0 1")).is_consistent());
}
