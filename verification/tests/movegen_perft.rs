use prokopakop::board::Game;

fn perft(game: &mut Game, depth: usize) -> usize {
    let (count, moves) = game.get_moves();
    if depth == 1 {
        return count;
    }
    let mut total = 0;
    for m in moves {
        game.make_move(m);
        total += perft(game, depth - 1);
        game.unmake_move();
    }
    total
}

#[test]
fn perft_start_position_depth_three() {
    let mut game = Game::new(None);
    assert_eq!(perft(&mut game, 1), 20);
    assert_eq!(perft(&mut game, 2), 400);
    assert_eq!(perft(&mut game, 3), 8902);
}

#[test]
fn perft_kiwipete_depth_three() {
    let mut game =
        Game::new(Some("r3k2r/p1ppqpb1/bn2pnp1/3PN3/1p2P3/2N2Q1p/PPPBBPPP/R3K2R w KQkq - 0 1"));
    assert_eq!(perft(&mut game, 1), 48);
    assert_eq!(perft(&mut game, 2), 2039);
    assert_eq!(perft(&mut game, 3), 97862);
}

#[test]
fn perft_endgame_position() {
    let mut game = Game::new(Some("8/2p5/3p4/KP5r/1R3p1k/8/4P1P1/8 w - - 0 1"));
    assert_eq!(perft(&mut game, 1), 14);
    assert_eq!(perft(&mut game, 2), 191);
    assert_eq!(perft(&mut game, 3), 2812);
    assert_eq!(perft(&mut game, 4), 43238);
}

#[test]
fn perft_promotion_position() {
    let mut game =
        Game::new(Some("r3k2r/Pppp1ppp/1b3nbN/nP6/BBP1P3/q4N2/Pp1P2PP/R2Q1RK1 w kq - 0 1"));
    assert_eq!(perft(&mut game, 1), 6);
    assert_eq!(perft(&mut game, 2), 264);
    assert_eq!(perft(&mut game, 3), 9467);
}

#[test]
fn perft_position_five() {
    let mut game = Game::new(Some("rnbq1k1r/pp1Pbppp/2p5/8/2B5/8/PPP1NnPP/RNBQK2R w KQ - 1 8"));
    assert_eq!(perft(&mut game, 1), 44);
    assert_eq!(perft(&mut game, 2), 1486);
    assert_eq!(perft(&mut game, 3), 62379);
}
