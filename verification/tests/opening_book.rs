use prokopakop::board_move;
use prokopakop::book::{select_by_rating, BookMove, OpeningBook};
use prokopakop::pgn::GameResult;

fn mv(s: &str) -> u16 {
    board_move::parse(s).expect("a move in long algebraic notation")
}

fn summary(book: &OpeningBook, key: u64) -> Vec<(u16, u32, u32)> {
    book.get_moves(key)
        .expect("a position of the book")
        .iter()
        .map(|m| (m.board_move, m.times_played, m.rating_sum))
        .collect()
}

#[test]
fn games_are_counted_per_position() {
    let mut book = OpeningBook::new();
    assert_eq!(book.position_count(), 0);
    assert!(book.get_moves(1).is_none());
    book.add_game(vec![(1, mv("e2e4")), (2, mv("e7e5"))], GameResult::White, 2000);
    book.add_game(vec![(1, mv("d2d4")), (3, mv("d7d5"))], GameResult::Draw, 2200);
    book.add_game(vec![(1, mv("d2d4")), (3, mv("g8f6"))], GameResult::Black, 1800);
    assert_eq!(book.position_count(), 3);
    assert_eq!(summary(&book, 1), vec![(mv("d2d4"), 2, 4000), (mv("e2e4"), 1, 2000)]);
    assert_eq!(summary(&book, 2), vec![(mv("e7e5"), 1, 2000)]);
    assert_eq!(book.get_moves(3).expect("a position").len(), 2);
    assert_eq!(book.total_games(), 6);
    assert_eq!(book.total_rating_sum(), 2000 + 2000 + 2200 + 2200 + 1800 + 1800);
}

#[test]
fn counts_wrap_around() {
    let mut book = OpeningBook::new();
    book.add_game(vec![(9, mv("e2e4"))], GameResult::Draw, u32::MAX);
    book.add_game(vec![(9, mv("e2e4"))], GameResult::Draw, 2);
    assert_eq!(summary(&book, 9), vec![(mv("e2e4"), 2, 1)]);
}

#[test]
fn book_moves_compare_by_times_played() {
    let a = BookMove { board_move: mv("e2e4"), times_played: 3, rating_sum: 10 };
    let b = BookMove { board_move: mv("d2d4"), times_played: 3, rating_sum: 99 };
    let c = BookMove { board_move: mv("e2e4"), times_played: 4, rating_sum: 10 };
    assert!(a == b);
    assert!(a != c);
}

#[test]
fn selection_follows_the_heap() {
    let walk = vec![(10u32, 1u64), (30, 2), (20, 3), (40, 4)];
    assert_eq!(select_by_rating(&walk, 2), vec![(10, 1), (40, 4)]);
    assert_eq!(select_by_rating(&walk, 4), walk);
    assert_eq!(select_by_rating(&walk, 1), vec![(40, 4)]);
    let ties = vec![(5u32, 7u64), (5, 9), (5, 3)];
    assert_eq!(select_by_rating(&ties, 2), vec![(5, 7), (5, 9)]);
    assert_eq!(select_by_rating(&vec![], 0), vec![]);
}

#[test]
fn pruning_keeps_the_requested_number() {
    let mut book = OpeningBook::new();
    for key in 1..=5u64 {
        book.add_game(vec![(key, mv("e2e4"))], GameResult::Draw, (key as u32) * 100);
    }
    book.prune_by_size(10);
    assert_eq!(book.position_count(), 5);
    book.prune_by_size(3);
    assert_eq!(book.position_count(), 3);
    let kept: Vec<u64> = (1..=5u64).filter(|k| book.get_moves(*k).is_some()).collect();
    assert_eq!(kept.len(), 3);
    for key in kept {
        assert_eq!(summary(&book, key), vec![(mv("e2e4"), 1, (key as u32) * 100)]);
    }
}

#[test]
fn book_files_round_trip() {
    let mut book = OpeningBook::new();
    book.add_game(vec![(42, mv("e2e4")), (0xdead_beef, mv("e7e8q"))], GameResult::White, 2400);
    book.add_game(vec![(42, mv("d2d4"))], GameResult::Black, 2000);
    book.add_game(vec![(42, mv("d2d4"))], GameResult::Black, 2000);
    let lines = book.file_lines();
    assert_eq!(lines.len(), 5);
    assert_eq!(lines[0], "# prokopakopening book v2.0 (with ELO weighting)");
    assert_eq!(lines[1], "# Positions: 2");
    assert_eq!(lines[2], "");
    assert!(lines.contains(&"000000000000002a d2d4:2:4000 e2e4:1:2400".to_string()));
    assert!(lines.contains(&"00000000deadbeef e7e8q:1:2400".to_string()));

    let loaded = OpeningBook::load_from_lines(&lines);
    assert_eq!(loaded.position_count(), 2);
    assert_eq!(summary(&loaded, 42), vec![(mv("d2d4"), 2, 4000), (mv("e2e4"), 1, 2400)]);
    assert_eq!(summary(&loaded, 0xdead_beef), vec![(mv("e7e8q"), 1, 2400)]);
    assert_eq!(loaded.total_games(), 4);
    assert_eq!(loaded.total_rating_sum(), 4000 + 2400 + 2400);
}

#[test]
fn book_lines_are_read() {
    let lines: Vec<String> = vec![
        "# a comment e2e4".to_string(),
        "".to_string(),
        "  ff e2e4 nonsense d2d4  ".to_string(),
        "+1F e2e4".to_string(),
        "zz e2e4".to_string(),
        "7".to_string(),
        "8 nonsense".to_string(),
        "ff g1f3".to_string(),
        "10000000000000000 e2e4".to_string(),
    ];
    let book = OpeningBook::load_from_lines(&lines);
    assert_eq!(book.position_count(), 2);
    assert_eq!(summary(&book, 0xff), vec![(mv("g1f3"), 0, 0)]);
    assert_eq!(summary(&book, 0x1f), vec![(mv("e2e4"), 0, 0)]);
    assert!(book.get_moves(7).is_none());
    assert!(book.get_moves(8).is_none());

    let bad = vec!["ab A1b2".to_string()];
    assert_eq!(OpeningBook::load_from_lines(&bad).position_count(), 0);
    let comment = vec!["#ab A1b2".to_string()];
    assert_eq!(OpeningBook::load_from_lines(&comment).position_count(), 0);
}

#[test]
fn book_words_carry_statistics() {
    let lines: Vec<String> = vec![
        "1 e2e4:3:6000 d2d4:7:14000 g1f3:+2:4100".to_string(),
        "2 e2e4:x:5 c2c4:1:2:3 b1c3".to_string(),
        "3 e2e4:4294967296:1 e7e8q:1:4294967295".to_string(),
    ];
    let book = OpeningBook::load_from_lines(&lines);
    assert_eq!(
        summary(&book, 1),
        vec![(mv("d2d4"), 7, 14000), (mv("e2e4"), 3, 6000), (mv("g1f3"), 2, 4100)]
    );
    let two = summary(&book, 2);
    assert_eq!(two.len(), 3);
    assert!(two.iter().all(|m| m.1 == 0 && m.2 == 0));
    assert!(two.iter().any(|m| m.0 == mv("e2e4")));
    assert!(two.iter().any(|m| m.0 == mv("c2c4")));
    assert!(two.iter().any(|m| m.0 == mv("b1c3")));
    let three = summary(&book, 3);
    assert_eq!(three[0], (mv("e7e8q"), 1, 4294967295));
    assert_eq!(three[1], (mv("e2e4"), 0, 0));
}
