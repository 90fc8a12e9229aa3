use prokopakop::bitboard::{
    blocker_subset, calculate_blocker_bitboards, create_bitboard_for_piece, find_magic, flatten_magic_tables,
    get_attack_piece_deltas, is_position_valid, is_set, magic_keys, next_index, pawn_attack_bitboards,
    piece_move_bitboards, position_to_bitmask, positions, try_magic, MagicBitboardEntry,
};
use prokopakop::board::Game;
use prokopakop::board_move;
use prokopakop::cli::GUICommand;
use prokopakop::controller::{pick_joke, GameController, OptionOutcome};
use prokopakop::history::HistoryTable;
use prokopakop::killer::KillerMoves;
use prokopakop::limits::SearchLimits;
use prokopakop::nnue::{get_output_bucket, screlu, Accumulator, Network, NETWORK_BYTES};
use prokopakop::pieces::{Color, Piece};
use prokopakop::repetition::PositionHistory;
use prokopakop::square;
use prokopakop::stats::{iteration_fits, next_iteration_estimate, stop_decision, SearchStats};
use prokopakop::table::{NodeType, TTEntry, TranspositionTable};
use prokopakop::text::whitespace;
use prokopakop::training::{determine_game_result, GameResult as TrainingResult};
use std::sync::atomic::AtomicBool;
use std::sync::{Arc, Mutex};
use std::time::Instant;

const START_FEN: &str = "rnbqkbnr/pppppppp/8/8/8/8/PPPPPPPP/RNBQKBNR w KQkq - 0 1";
const KIWIPETE: &str = "r3k2r/p1ppqpb1/bn2pnp1/3PN3/1p2P3/2N2Q1p/PPPBBPPP/R3K2R w KQkq - 0 1";

fn mv(s: &str) -> u16 {
    board_move::parse(s).expect("a move in long algebraic notation")
}

fn limits(max_nodes: Option<u64>, max_time_ms: Option<u64>, infinite: bool) -> SearchLimits {
    SearchLimits { max_depth: None, max_nodes, max_time_ms, moves: vec![], infinite, exact: false }
}

#[test]
fn pieces_and_colors() {
    assert_eq!(Color::White.not(), Color::Black);
    assert_eq!(Color::Black.not(), Color::White);
    assert_eq!(Color::from_repr(Color::White.index()), Some(Color::White));
    assert_eq!(Color::from_repr(2), None);
    for i in 0..6 {
        let p = Piece::from_repr(i).expect("six piece kinds");
        assert_eq!(p.index(), i);
        assert_eq!(Piece::from_char(p.to_char()), Some(p));
    }
    assert_eq!(Piece::from_repr(6), None);
    assert_eq!(Piece::from_char('x'), None);
    assert_eq!(Piece::from_char('Q'), None);
    assert_eq!(Piece::Queen.to_char(), 'q');
    assert_eq!(Piece::Knight.to_emoji(), '\u{265E}');
    assert!(Piece::Rook.is_slider());
    assert!(!Piece::Knight.is_slider());
}

#[test]
fn squares_are_named_and_parsed() {
    assert_eq!(square::parse("e4"), Some(28));
    assert_eq!(square::parse("a1"), Some(0));
    assert_eq!(square::parse("h8"), Some(63));
    assert_eq!(square::parse("4e"), None);
    assert_eq!(square::parse("e"), None);
    assert_eq!(square::parse("A1"), None);
    assert_eq!(square::parse("i1"), None);
    assert_eq!(square::parse("a9"), None);
    assert_eq!(square::parse("a0"), None);
    assert_eq!(square::parse("e4xyz"), Some(28));
    assert_eq!(square::unparse(28), "e4");
    assert_eq!(square::unparse(63), "h8");
    assert_eq!(square::from_position(4, 3), 28);
    assert_eq!(square::get_x(28), 4);
    assert_eq!(square::get_y(28), 3);
    assert_eq!(square::to_mask(28), 1u64 << 28);
    for sq in 0u8..64 {
        assert_eq!(square::parse(&square::unparse(sq)), Some(sq));
    }
}

#[test]
fn moves_are_encoded_and_parsed() {
    assert_eq!(board_move::new(12, 28, None), 1804);
    assert_eq!(board_move::parse("e2e4"), Some(1804));
    assert_eq!(board_move::parse("e7e8q"), Some(36660));
    assert_eq!(board_move::get_from(36660), 52);
    assert_eq!(board_move::get_to(36660), 60);
    assert_eq!(board_move::get_promotion(36660), Some(Piece::Queen));
    assert_eq!(board_move::unparse(36660), "e7e8q");
    assert_eq!(board_move::unparse(1804), "e2e4");
    assert_eq!(board_move::parse("e7e8k"), None);
    assert_eq!(board_move::parse("e7e8p"), None);
    assert_eq!(board_move::parse("e2"), None);
    assert_eq!(board_move::parse("é2e4"), None);
    assert_eq!(board_move::parse("A2e4"), None);
    assert_eq!(board_move::parse("i2i4"), None);
    assert_eq!(board_move::parse("e2e9"), None);
    assert_eq!(board_move::empty(), 0);
    for name in ["a7a8n", "b2b1b", "c7c8r", "g1f3"] {
        assert_eq!(board_move::unparse(mv(name)), name);
    }
}

#[test]
fn character_classes_follow_unicode() {
    assert!(whitespace('\u{3000}'));
    assert!(whitespace('\t'));
    assert!(!whitespace('_'));
    match GUICommand::parse("go\u{3000}perft 3") {
        GUICommand::Perft(depth) => assert_eq!(depth, "3"),
        _ => panic!("expected perft"),
    }
}

#[test]
fn option_names_ignore_case() {
    let mut controller = GameController::new();
    assert_eq!(controller.set_option("MOVE OVERHEAD", "250"), OptionOutcome::Applied);
    assert_eq!(controller.move_overhead, 250);
    assert_eq!(controller.set_option("HaSh", "16"), OptionOutcome::HashResized(16));
}

#[test]
fn board_queries() {
    let game = Game::start();
    assert_eq!(game.get_fen(), START_FEN);
    assert_eq!(game.side(), Color::White);
    assert_eq!(game.piece_at(4), Some((Piece::King, Color::White)));
    assert_eq!(game.piece_at(28), None);
    assert_eq!(game.get_king_position(Color::Black), 60);
    assert_eq!(game.piece_bitboard(Piece::Pawn), 0x00FF_0000_0000_FF00);
    assert_eq!(game.color_bitboard(Color::White), 0xFFFF);
    assert!(!game.is_king_in_check(Color::White));
    assert!(game.is_square_attacked(21, Color::White));
    assert!(!game.is_square_attacked(28, Color::White));
    let attackers = game.get_attacked_from(21, Color::Black);
    assert_eq!(attackers, (1u64 << 6) | (1u64 << 12) | (1u64 << 14));
    assert!(!game.is_capture(mv("e2e4")));
    assert!(game.is_legal(mv("e2e4")));
    assert!(!game.is_legal(mv("e2e5")));
    assert!(game.is_consistent());
    assert!(!game.is_fifty_move_rule());

    let kiwipete = Game::new(Some(KIWIPETE));
    assert!(kiwipete.is_capture(mv("e5f7")));
    assert!(kiwipete.is_capture(mv("f3f6")));
    assert!(!kiwipete.is_capture(mv("e1g1")));
    let (n, _) = kiwipete.get_moves();
    assert_eq!(n, 48);
}

#[test]
fn en_passant_captures_are_captures() {
    let mut game = Game::start();
    for m in ["e2e4", "a7a6", "e4e5", "d7d5"] {
        game.make_move(mv(m));
    }
    assert!(game.is_capture(mv("e5d6")));
    assert!(game.is_legal(mv("e5d6")));
}

#[test]
fn is_check_looks_at_the_side_that_moved() {
    for fen in [START_FEN, KIWIPETE, "4k3/8/8/8/8/8/8/R3K3 w Q - 0 1"] {
        let mut game = Game::new(Some(fen));
        let before = game.get_fen();
        let (n, moves) = game.get_moves();
        for &m in &moves[..n] {
            assert!(!game.is_check(m));
            assert_eq!(game.get_fen(), before);
        }
    }
}

#[test]
fn null_moves_pass_the_turn() {
    let mut game = Game::start();
    game.make_move(mv("e2e4"));
    let before = game.get_fen();
    let key = game.zobrist_key();
    game.make_null_move();
    let fen = game.get_fen();
    let fields: Vec<&str> = fen.split(' ').collect();
    assert_eq!(fields[0], "rnbqkbnr/pppppppp/8/8/4P3/8/PPPP1PPP/RNBQKBNR");
    assert_eq!(fields[1], "w");
    assert_eq!(fields[3], "-");
    assert_eq!(fields[4], "1");
    assert_ne!(game.zobrist_key(), key);
    game.unmake_null_move();
    assert_eq!(game.get_fen(), before);
    assert_eq!(game.zobrist_key(), key);
}

#[test]
fn make_then_unmake_restores_every_position() {
    for fen in [START_FEN, KIWIPETE, "8/2p5/3p4/KP5r/1R3p1k/8/4P1P1/8 w - - 0 1"] {
        let mut game = Game::new(Some(fen));
        let before = game.get_fen();
        let key = game.zobrist_key();
        let (n, moves) = game.get_moves();
        for &m in &moves[..n] {
            game.make_move(m);
            assert!(game.is_consistent());
            game.unmake_move();
            assert_eq!(game.get_fen(), before);
            assert_eq!(game.zobrist_key(), key);
        }
    }
}

#[test]
fn transposed_move_orders_share_a_key() {
    let mut a = Game::start();
    let mut b = Game::start();
    for m in ["g1f3", "g8f6", "b1c3"] {
        a.make_move(mv(m));
    }
    for m in ["b1c3", "g8f6", "g1f3"] {
        b.make_move(mv(m));
    }
    assert_eq!(a.zobrist_key(), b.zobrist_key());
    let mut c = Game::start();
    c.make_move(mv("g1f3"));
    assert_ne!(a.zobrist_key(), c.zobrist_key());
}

#[test]
fn recorded_sequences_list_each_position() {
    let mut game = Game::start();
    let start_key = game.zobrist_key();
    let moves = [mv("e2e4"), mv("e7e5"), mv("g1f3")];
    let recorded = game.record_position_sequence(&moves);
    assert_eq!(recorded.len(), 3);
    assert_eq!(recorded[0], (start_key, moves[0]));
    let mut replay = Game::start();
    for (i, &(key, m)) in recorded.iter().enumerate() {
        assert_eq!(key, replay.zobrist_key());
        assert_eq!(m, moves[i]);
        replay.make_move(m);
    }
    assert_eq!(replay.get_fen(), game.get_fen());
}

#[test]
fn killer_moves_keep_the_two_latest() {
    let mut killers = KillerMoves::new(4);
    assert_eq!(killers.get_killers(1), [0, 0]);
    killers.add_killer(1, 100);
    killers.add_killer(1, 200);
    assert_eq!(killers.get_killers(1), [200, 100]);
    killers.add_killer(1, 200);
    assert_eq!(killers.get_killers(1), [200, 100]);
    killers.add_killer(1, 300);
    assert_eq!(killers.get_killers(1), [300, 200]);
    killers.add_killer(9, 300);
    assert_eq!(killers.get_killers(9), [0, 0]);
    killers.clear();
    assert_eq!(killers.get_killers(1), [0, 0]);
}

#[test]
fn history_scores_grow_by_depth_squared() {
    let mut history = HistoryTable::new();
    let m = mv("e2e4");
    let other = mv("d2d4");
    history.add_history(m, 4);
    assert_eq!(history.get_history_score(&m), 16);
    history.add_history(other, 3);
    assert_eq!(history.get_history_score(&other), 9);
    for _ in 0..511 {
        history.add_history(m, 4);
    }
    assert_eq!(history.get_history_score(&m), 8192);
    history.add_history(m, 1);
    assert_eq!(history.get_history_score(&m), 4096);
    assert_eq!(history.get_history_score(&other), 4);
    let quiet = mv("a2a3");
    history.add_history_penalty(quiet, 5);
    assert_eq!(history.get_history_score(&quiet), -12);
    for _ in 0..700 {
        history.add_history_penalty(quiet, 5);
    }
    assert_eq!(history.get_history_score(&quiet), -8192);
}

#[test]
fn history_scores_stay_within_the_threshold() {
    let mut history = HistoryTable::new();
    let m = mv("g1f3");
    let n = mv("b8c6");
    for i in 0..300 {
        history.add_history(m, 90);
        history.add_history_penalty(n, 90);
        if i % 3 == 0 {
            history.add_history(n, 90);
            history.add_history_penalty(m, 90);
        }
        for s in [m, n] {
            let v = history.get_history_score(&s);
            assert!((-8192..=8192).contains(&v), "score {} out of range", v);
        }
    }
}

#[test]
fn killer_pairs_never_repeat_a_move() {
    let mut killers = KillerMoves::new(2);
    for m in [5u16, 5, 7, 0, 0, 7, 7, 9, 0] {
        killers.add_killer(0, m);
        let [a, b] = killers.get_killers(0);
        assert!(a != b || (a == 0 && b == 0));
    }
    assert_eq!(killers.get_killers(0), [0, 9]);
}

#[test]
fn search_limits_decide_when_to_stop() {
    let none = limits(None, None, false);
    assert!(stop_decision(true, false, &none, 0, 0));
    assert!(!stop_decision(false, false, &none, 1_000_000, 1_000_000));
    let nodes = limits(Some(500), None, false);
    assert!(stop_decision(false, false, &nodes, 500, 0));
    assert!(!stop_decision(false, false, &nodes, 499, 0));
    assert!(!stop_decision(false, true, &nodes, 500, 0));
    let time = limits(None, Some(100), false);
    assert!(stop_decision(false, false, &time, 0, 100));
    assert!(!stop_decision(false, false, &time, 0, 99));
    let infinite = limits(Some(1), Some(1), true);
    assert!(!stop_decision(false, false, &infinite, 10, 10));

    assert_eq!(next_iteration_estimate(1000), 2500);
    assert_eq!(next_iteration_estimate(1001), 2502);
    assert_eq!(next_iteration_estimate(u64::MAX), u64::MAX);
    assert!(iteration_fits(false, &time, 50, 20));
    assert!(!iteration_fits(false, &time, 50, 21));
    assert!(iteration_fits(false, &time, 150, 0));
    assert!(!iteration_fits(false, &time, 150, 1));
    assert!(iteration_fits(true, &time, 150, 1000));
    assert!(iteration_fits(false, &none, 150, 1000));
}

#[test]
fn search_stats_read_the_flags() {
    let start = Arc::new(Mutex::new(Instant::now()));
    let ponder = Arc::new(AtomicBool::new(false));
    let mut stats = SearchStats::new(start, ponder);
    assert_eq!(stats.nodes, 0);
    stats.increment_nodes();
    stats.increment_nodes();
    assert_eq!(stats.nodes, 2);
    assert!(!stats.is_pondering());
    let stop = Arc::new(AtomicBool::new(true));
    assert!(stats.should_stop(&limits(None, None, false), &stop));
    let go_on = Arc::new(AtomicBool::new(false));
    assert!(!stats.should_stop(&limits(None, None, false), &go_on));
    assert!(stats.should_stop(&limits(Some(2), None, false), &go_on));
    assert!(stats.has_time_for_iteration(&limits(None, None, false), 1_000_000));
    assert!(!stats.has_time_for_iteration(&limits(None, Some(0), false), 1000));
}

#[test]
fn network_arithmetic() {
    assert_eq!(screlu(-5), 0);
    assert_eq!(screlu(10), 100);
    assert_eq!(screlu(300), 65025);
    assert_eq!(get_output_bucket(0), 0);
    assert_eq!(get_output_bucket(5), 0);
    assert_eq!(get_output_bucket(6), 1);
    assert_eq!(get_output_bucket(32), 7);
    assert_eq!(get_output_bucket(100), 7);

    assert!(Network::from_bytes(&vec![0u8; NETWORK_BYTES - 1]).is_none());
    let mut image = vec![0u8; NETWORK_BYTES];
    // First feature, first hidden unit: 7.
    image[0] = 7;
    // Output bias of bucket 0: 100.
    image[200960] = 100;
    let net = Network::from_bytes(&image).expect("an image of the right size");
    let mut us = Accumulator::new(&net);
    let them = Accumulator::new(&net);
    assert!(us.vals.iter().all(|&v| v == 0));
    assert_eq!(net.evaluate(&us, &them, 2), 2);
    assert_eq!(net.try_evaluate(&us, &them, 2), Some(2));
    assert_eq!(net.evaluate(&us, &them, 32), 0);
    us.add_feature(0, &net);
    assert_eq!(us.vals[0], 7);
    assert_eq!(us.vals[1], 0);
    us.remove_feature(0, &net);
    assert_eq!(us.vals[0], 0);
    assert!(us.try_add_feature(0, &net));
    assert_eq!(us.vals[0], 7);

    let mut big = vec![0u8; NETWORK_BYTES];
    big[0] = 0xFF;
    big[1] = 0x7F;
    let net = Network::from_bytes(&big).expect("an image of the right size");
    let mut acc = Accumulator::new(&net);
    assert!(acc.try_add_feature(0, &net));
    assert_eq!(acc.vals[0], i16::MAX);
    assert!(!acc.try_add_feature(0, &net));
    assert_eq!(acc.vals[0], i16::MAX);
}

#[test]
fn attack_tables() {
    assert_eq!(position_to_bitmask(4, 3), 1u64 << 28);
    assert!(is_position_valid(7, 0));
    assert!(!is_position_valid(-1, 3));
    assert!(!is_position_valid(2, 8));
    assert_eq!(next_index(0b1000), 3);
    assert_eq!(next_index(0), 64);
    assert!(is_set(0b1000, 3));
    assert!(!is_set(0b1000, 2));
    assert_eq!(positions(0b1010), vec![1, 3]);
    assert_eq!(positions(1u64 << 63), vec![63]);

    let rook = get_attack_piece_deltas(Piece::Rook, Color::White);
    assert_eq!(create_bitboard_for_piece(0, 0, &rook, true, false, 0), 0x0101_0101_0101_01FE);
    assert_eq!(create_bitboard_for_piece(0, 0, &rook, true, false, 1u64 << 16), 0x0000_0000_0001_01FE);
    assert_eq!(calculate_blocker_bitboards(Piece::Rook)[0], 0x0001_0101_0101_017E);
    assert_eq!(piece_move_bitboards(Piece::Knight)[0], (1u64 << 17) | (1u64 << 10));
    assert_eq!(pawn_attack_bitboards(Color::White)[8], 1u64 << 17);
    assert_eq!(pawn_attack_bitboards(Color::Black)[17], (1u64 << 8) | (1u64 << 10));

    assert_eq!(blocker_subset(0b1010, 0), 0);
    assert_eq!(blocker_subset(0b1010, 1), 0b0010);
    assert_eq!(blocker_subset(0b1010, 2), 0b1000);
    assert_eq!(blocker_subset(0b1010, 3), 0b1010);
}

#[test]
fn magic_numbers_are_checked() {
    let keys = vec![(1u64, 10u64), (2u64, 20u64)];
    let entry = try_magic(&keys, 1, 1u64 << 63, None).expect("a magic without collisions");
    assert_eq!(entry.magic, 1u64 << 63);
    assert_eq!(entry.shift, 63);
    assert_eq!(entry.max_index, 1);
    assert_eq!(entry.entries, vec![20, 10]);
    assert!(try_magic(&keys, 1, 1, None).is_none());
    assert!(try_magic(&keys, 1, 0, None).is_none());
    assert!(try_magic(&keys, 1, 1u64 << 63, Some(1)).is_none());
    assert!(try_magic(&keys, 1, 1u64 << 63, Some(2)).is_some());
    let same = vec![(1u64, 10u64), (2u64, 10u64)];
    assert!(try_magic(&same, 1, 1, None).is_some());
}

#[test]
fn transposition_table_stores_and_replaces() {
    let mut tt = TranspositionTable::<i32>::new(1, 0);
    let n = tt.bucket_count() as u64;
    assert!(n > 0);
    assert!(tt.probe(5).is_none());
    tt.store(5, 3, 100, mv("e2e4"), NodeType::Exact);
    let e = tt.probe(5).expect("a stored entry");
    assert_eq!((e.key, e.depth, e.evaluation, e.best_move, e.node_type, e.age), (5, 3, 100, mv("e2e4"), NodeType::Exact, 0));
    assert_eq!(tt.get_hit_rate_percent(), 50);

    // A shallower result of the same generation does not replace it.
    tt.store(5, 2, -7, 0, NodeType::UpperBound);
    assert_eq!(tt.probe(5).expect("kept").evaluation, 100);
    // A result from a later search does.
    tt.new_search();
    tt.store(5, 1, -7, 0, NodeType::LowerBound);
    let e = tt.probe(5).expect("replaced");
    assert_eq!((e.depth, e.evaluation, e.node_type, e.age), (1, -7, NodeType::LowerBound, 1));

    // A full bucket gives up its least valuable entry.
    let base = 7u64;
    for i in 0..4u64 {
        tt.store(base + i * n, (i + 2) as u8, i as i32, 0, NodeType::Exact);
    }
    tt.store(base + 4 * n, 9, 44, 0, NodeType::Exact);
    assert!(tt.probe(base).is_none());
    assert_eq!(tt.probe(base + 4 * n).expect("stored").evaluation, 44);
    assert_eq!(tt.probe(base + n).expect("kept").evaluation, 1);

    tt.new_search();
    tt.new_search();
    tt.new_search();
    tt.store(11, 1, 1, 0, NodeType::Exact);
    let pruned = tt.prune_old_entries();
    assert_eq!(pruned, 5);
    assert!(tt.probe(5).is_none());
    assert!(tt.probe(base + n).is_none());
    assert!(tt.probe(11).is_some());

    tt.clear();
    assert!(tt.probe(11).is_none());
    assert_eq!(tt.get_fullness_permille(), 0);
}

#[test]
fn replacement_scores() {
    let mut e = TTEntry::empty(0i32);
    assert_eq!(e.replacement_score(0), -1000);
    e.key = 1;
    e.depth = 2;
    assert_eq!(e.replacement_score(0), 41);
    assert_eq!(e.replacement_score(2), 35);
    assert_eq!(e.replacement_score(20), -4);
    e.node_type = NodeType::UpperBound;
    assert_eq!(e.replacement_score(0), 16);
    e.age = 10;
    assert_eq!(e.replacement_score(5), 16 - 45);
}

#[test]
fn position_history_counts_and_clones() {
    let mut history = PositionHistory::new();
    history.push(1);
    history.push(2);
    history.push(1);
    assert_eq!(history.occurrence_count(1), 2);
    assert!(!history.is_threefold_repetition(1));
    history.push(1);
    assert!(history.is_threefold_repetition(1));
    history.pop();
    assert!(!history.is_threefold_repetition(2));
    let copy = history.clone();
    assert_eq!(copy.occurrence_count(1), 2);
    assert_eq!(copy.occurrence_count(2), 1);
    history.pop();
    assert_eq!(history.occurrence_count(1), 1);
    assert!(!history.is_threefold_repetition(1));
    assert_eq!(copy.occurrence_count(1), 2);
    history.pop();
    assert_eq!(history.occurrence_count(2), 0);
}

#[test]
fn game_results_from_the_final_position() {
    let mut controller = GameController::new();
    assert_eq!(determine_game_result(&controller), TrainingResult::Draw);
    controller.set_board_from_fen("rnb1kbnr/pppp1ppp/8/4p3/6Pq/5P2/PPPPP2P/RNBQKBNR w KQkq - 1 3");
    assert_eq!(determine_game_result(&controller), TrainingResult::BlackWin);
    controller.set_board_from_fen("7k/5Q2/6K1/8/8/8/8/8 b - - 0 1");
    assert_eq!(determine_game_result(&controller), TrainingResult::Draw);
    controller.set_board_from_fen("6rk/5Npp/8/8/8/8/8/6K1 b - - 0 1");
    assert_eq!(determine_game_result(&controller), TrainingResult::WhiteWin);
}

#[test]
fn magic_search_pieces() {
    let keys = magic_keys(0b1010, 2, 0, 0, Piece::Rook);
    assert_eq!(
        keys,
        vec![
            (0, 0x0101_0101_0101_01FE),
            (0b0010, 0x0101_0101_0101_0102),
            (0b1000, 0x0101_0101_0101_010E),
            (0b1010, 0x0101_0101_0101_0102),
        ]
    );
    let entry = find_magic(&keys, 2, None, 1_000_000).expect("a magic for four arrangements");
    assert_eq!(entry.shift, 62);
    for &(blockers, moves) in &keys {
        let index = (blockers.wrapping_mul(entry.magic) >> 62) as usize;
        assert_eq!(entry.entries[index], moves);
        assert!(index <= entry.max_index);
    }
    assert!(find_magic(&keys, 2, Some(0), 1000).is_none());

    let tables = vec![
        MagicBitboardEntry { magic: 5, shift: 60, entries: vec![1, 2, 3], max_index: 2 },
        MagicBitboardEntry { magic: 7, shift: 61, entries: vec![4], max_index: 0 },
    ];
    let (table, all) = flatten_magic_tables(&tables);
    assert_eq!(table, vec![(5, 0, 60), (7, 3, 61)]);
    assert_eq!(all, vec![1, 2, 3, 4]);
}

#[test]
fn jokes_are_told_once() {
    let mut used = vec![false, true, false];
    assert_eq!(pick_joke(&mut used, 3), Some(2));
    assert_eq!(used, vec![false, true, true]);
    assert_eq!(pick_joke(&mut used, 12345), Some(0));
    assert_eq!(used, vec![true, true, true]);
    assert_eq!(pick_joke(&mut used, 7), None);
    assert_eq!(used, vec![true, true, true]);
}

#[test]
fn ten_jokes_in_ten_calls() {
    let mut used = vec![false; 10];
    let mut told = Vec::new();
    for seed in [7u64, 0, 99, 3, 3, 12, 1 << 40, 5, 2, 8] {
        let j = pick_joke(&mut used, seed).expect("an untold joke");
        assert!(!told.contains(&j));
        told.push(j);
    }
    told.sort();
    assert_eq!(told, (0..10).collect::<Vec<usize>>());
    assert_eq!(pick_joke(&mut used, 4), None);
}

#[test]
fn pseudo_legal_moves_ignore_the_king() {
    let game = Game::start();
    let (n, moves) = game.get_side_pseudo_legal_moves(Color::White);
    assert_eq!(n, 20);
    assert_eq!(moves[0], mv("a2a3"));
    assert_eq!(moves[1], mv("a2a4"));
    assert_eq!(moves[16], mv("b1a3"));
    assert_eq!(moves[19], mv("g1h3"));
    let (black, _) = game.get_side_pseudo_legal_moves(Color::Black);
    assert_eq!(black, 20);

    let pinned = Game::new(Some("4k3/4r3/8/8/8/8/4N3/4K3 w - - 0 1"));
    let (pseudo, _) = pinned.get_side_pseudo_legal_moves(Color::White);
    let (legal, _) = pinned.get_moves();
    assert_eq!(pseudo, 10);
    assert_eq!(legal, 4);

    let promoting = Game::new(Some("4k3/1P6/8/8/8/8/8/4K3 w - - 0 1"));
    let (count, list) = promoting.get_side_pseudo_legal_moves(Color::White);
    assert_eq!(count, 9);
    assert_eq!(&list[..4], &[mv("b7b8q"), mv("b7b8r"), mv("b7b8b"), mv("b7b8n")]);

    let castling = Game::new(Some("r3k2r/8/8/8/8/8/8/R3K2R w KQkq - 0 1"));
    let (_, list) = castling.get_side_pseudo_legal_moves(Color::White);
    assert!(!list.contains(&mv("e1g1")));
    let (_, legal) = castling.get_moves();
    assert!(legal.contains(&mv("e1g1")));
}

#[test]
fn king_attacks_and_visibility() {
    let game = Game::start();
    assert_eq!(game.get_king_attacks(Color::White), 0);
    assert_eq!(
        game.get_king_visibility(Color::White),
        (1u64 << 3) | (1u64 << 5) | (1u64 << 11) | (1u64 << 12) | (1u64 << 13)
    );
    let mated = Game::new(Some("rnb1kbnr/pppp1ppp/8/4p3/6Pq/5P2/PPPPP2P/RNBQKBNR w KQkq - 1 3"));
    assert_eq!(mated.get_king_attacks(Color::White), 1u64 << 31);
    assert_eq!(mated.get_king_attacks(Color::Black), 0);
}

#[test]
fn fen_text_reads_back() {
    for fen in [
        "r3k2r/p1ppqpb1/bn2pnp1/3PN3/1p2P3/2N2Q1p/PPPBBPPP/R3K2R w KQkq - 0 1",
        "rnbqkbnr/pppppppp/8/8/4P3/8/PPPP1PPP/RNBQKBNR b KQkq e3 0 1",
        "rnbqkbnr/pppp1ppp/8/4p3/4P3/8/PPPP1PPP/RNBQKBNR w KQkq e6 0 2",
        "8/2p5/3p4/KP5r/1R3p1k/8/4P1P1/8 w - - 0 1",
        "rnbq1k1r/pp1Pbppp/2p5/8/2B5/8/PPP1NnPP/RNBQK2R w KQ - 1 8",
        "4k3/8/8/8/8/8/8/4K2R b K - 17 42",
    ] {
        let game = Game::from_fen(fen).expect("a valid FEN");
        let text = game.get_fen();
        assert_eq!(text, fen);
        let again = Game::from_fen(&text).expect("a valid FEN");
        assert_eq!(again.zobrist_key(), game.zobrist_key());
    }
}

#[test]
fn zobrist_keys_are_pairwise_distinct() {
    let keys = prokopakop::zobrist::ZobristKeys::new();
    assert!(keys.keys_distinct());
    let mut twice = keys.clone();
    twice.side_to_move = twice.pieces[5];
    assert!(!twice.keys_distinct());
}

#[test]
fn moves_are_listed_by_piece_kind() {
    let game = Game::start();
    let (n, moves) = game.get_moves();
    assert_eq!(n, 20);
    let names: Vec<String> = moves.iter().map(|m| board_move::unparse(*m)).collect();
    assert_eq!(&names[..4], &["a2a3", "a2a4", "b2b3", "b2b4"]);
    assert_eq!(&names[16..], &["b1a3", "b1c3", "g1f3", "g1h3"]);
    let game = Game::from_fen("4k3/P7/8/8/8/8/8/R3K2R w KQ - 0 1").expect("a valid FEN");
    let (_, moves) = game.get_moves();
    let names: Vec<String> = moves.iter().map(|m| board_move::unparse(*m)).collect();
    assert_eq!(&names[..4], &["a7a8q", "a7a8r", "a7a8b", "a7a8n"]);
    assert!(names.last().map(|m| m.starts_with("e1")).unwrap_or(false));
}
