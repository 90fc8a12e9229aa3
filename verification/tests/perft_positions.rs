use prokopakop::controller::GameController;

/// Positions with their known leaf counts at depths 1, 2, 3, ...
const SMALL: &[(&str, &[usize])] = &[
    ("rnbqkbnr/pppppppp/8/8/8/8/PPPPPPPP/RNBQKBNR w KQkq - 0 1", &[20, 400, 8902, 197281]),
    ("8/2p5/3p4/KP5r/1R3p1k/8/4P1P1/8 w - - 0 1", &[14, 191, 2812, 43238]),
    ("r3k2r/Pppp1ppp/1b3nbN/nP6/BBP1P3/q4N2/Pp1P2PP/R2Q1RK1 w kq - 0 1", &[6, 264, 9467, 422333]),
    ("r2q1rk1/pP1p2pp/Q4n2/bbp1p3/Np6/1B3NBn/pPPP1PPP/R3K2R b KQ - 0 1", &[6, 264, 9467, 422333]),
];

const LARGE: &[(&str, &[usize])] = &[
    ("r3k2r/p1ppqpb1/bn2pnp1/3PN3/1p2P3/2N2Q1p/PPPBBPPP/R3K2R w KQkq - 0 1", &[48, 2039, 97862, 4085603]),
    ("rnbq1k1r/pp1Pbppp/2p5/8/2B5/8/PPP1NnPP/RNBQK2R w KQ - 1 8", &[44, 1486, 62379, 2103487]),
    (
        "r4rk1/1pp1qppp/p1np1n2/2b1p1B1/2B1P1b1/P1NP1N2/1PP1QPPP/R4RK1 w - - 0 10",
        &[46, 2079, 89890, 3894594],
    ),
];

fn check_positions(positions: &[(&str, &[usize])], min_depth: usize, max_depth: usize) {
    for (fen, counts) in positions {
        for (i, expected) in counts.iter().enumerate() {
            let depth = i + 1;
            if depth < min_depth || depth > max_depth {
                continue;
            }
            let mut controller = GameController::new();
            controller.set_board_from_fen(fen);
            let total: usize = controller.perft(depth).iter().map(|(_, c)| c).sum();
            assert_eq!(total, *expected, "position '{}' at depth {}", fen, depth);
        }
    }
}

#[test]
fn test_perft_positions_easy() {
    check_positions(SMALL, 1, 3);
}

#[test]
fn test_perft_positions_medium() {
    check_positions(&SMALL[1..2], 4, 4);
}

#[test]
fn test_perft_positions_hard() {
    check_positions(&LARGE[..2], 1, 3);
}

#[test]
fn test_perft_positions_extreme() {
    check_positions(&LARGE[2..], 1, 3);
    check_positions(&SMALL[..1], 4, 4);
}
