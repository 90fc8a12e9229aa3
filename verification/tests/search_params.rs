use prokopakop::board_move;
use prokopakop::limits::SearchParams;
use prokopakop::pieces::Color;

fn words(s: &str) -> Vec<String> {
    s.split_whitespace().map(|w| w.to_string()).collect()
}

#[test]
fn go_parameters_are_read() {
    let p = SearchParams::parse(words("depth 5 wtime 1000 btime 900 winc 10 binc 20 movestogo 7 infinite ponder"));
    assert_eq!(p.depth, Some(5));
    assert_eq!(p.wtime, Some(1000));
    assert_eq!(p.btime, Some(900));
    assert_eq!(p.winc, Some(10));
    assert_eq!(p.binc, Some(20));
    assert_eq!(p.movestogo, Some(7));
    assert_eq!(p.movetime, None);
    assert_eq!(p.nodes, None);
    assert!(p.infinite);
    assert!(p.ponder);
    assert!(p.searchmoves.is_empty());
}

#[test]
fn bad_numbers_clear_settings() {
    let p = SearchParams::parse(words("depth 5 depth x movetime -3 nodes 18446744073709551616 bogus"));
    assert_eq!(p.depth, None);
    assert_eq!(p.movetime, None);
    assert_eq!(p.nodes, None);
}

#[test]
fn search_moves_end_at_a_keyword() {
    let p = SearchParams::parse(words("searchmoves e2e4 d2d4 nodes 7 movetime 50"));
    assert_eq!(
        p.searchmoves,
        vec![board_move::parse("e2e4").unwrap(), board_move::parse("d2d4").unwrap()]
    );
    assert_eq!(p.nodes, Some(7));
    assert_eq!(p.movetime, Some(50));
    let q = SearchParams::parse(words("searchmoves e2e4 d2d4 depth 5"));
    assert_eq!(q.searchmoves.len(), 2);
    assert_eq!(q.depth, Some(5));
}

#[test]
fn move_time_allocation() {
    let p = SearchParams::parse(words("wtime 60000 btime 30000 winc 1000"));
    assert_eq!(p.calculate_move_time(Color::White, 10), Some(2789));
    assert_eq!(p.calculate_move_time(Color::Black, 10), Some(989));
    let fixed = SearchParams::parse(words("movetime 500"));
    assert_eq!(fixed.calculate_move_time(Color::White, 10), Some(490));
    let infinite = SearchParams::parse(words("infinite"));
    assert_eq!(infinite.calculate_move_time(Color::White, 10), None);
}
