use vstd::prelude::*;
use vstd::wrapping::u32_specs;
use crate::board_move::{BoardMove, move_name, spec_parse_move};
use crate::fen::{chars_of, split_whitespace, tokens, is_word, lemma_tokens_of_word, lemma_tokens_append_word, lemma_first_token};
use crate::fen::{parse_unsigned, parse_unsigned_exec, lemma_decimal_reads, lemma_decimal_parses};
use crate::rules::canonical;
use crate::text::spec_is_whitespace;
use crate::text::{decimal, push_char, push_decimal, push_str, string_from, string_of};
use crate::pgn::GameResult;
use crate::tables::{BookPositions, book_position_entries};
use std::collections::HashSet;

verus! {

// An opening book: for each position (by Zobrist hash) the moves played in
// it, how often and by players of what strength, most played first.

/// A move of the book with how often it was played and the sum of the
/// ratings of the games it was played in.
#[derive(Debug, Clone, Copy)]
pub struct BookMove {
    pub board_move: BoardMove,
    pub times_played: u32,
    pub rating_sum: u32,
}

impl PartialEq for BookMove {
    /// Book moves compare by how often they were played.
    fn eq(&self, other: &Self) -> (r: bool) {
        self.times_played == other.times_played
    }
}

impl vstd::std_specs::cmp::PartialEqSpecImpl for BookMove {
    open spec fn obeys_eq_spec() -> bool {
        true
    }

    open spec fn eq_spec(&self, other: &Self) -> bool {
        self.times_played == other.times_played
    }
}

impl Eq for BookMove {
}

/// The moves of one position and the sum of the ratings of the games that
/// reached it.
#[derive(Debug, Clone)]
pub struct BookEntry {
    pub moves: Vec<BookMove>,
    pub total_rating: u32,
}

/// No move occurs twice.
pub open spec fn distinct_moves(s: Seq<BookMove>) -> bool {
    forall|i: int, j: int| 0 <= i < j < s.len() ==> #[trigger] s[i].board_move != #[trigger] s[j].board_move
}

/// Moves played more often come first.
pub open spec fn most_played_first(s: Seq<BookMove>) -> bool {
    forall|i: int, j: int| 0 <= i < j < s.len() ==> #[trigger] s[i].times_played >= #[trigger] s[j].times_played
}

/// The shape of every entry's move list: at least one move, none twice,
/// most played first.
pub open spec fn entry_wf(s: Seq<BookMove>) -> bool {
    s.len() > 0 && distinct_moves(s) && most_played_first(s)
}

/// Whether the list holds a move.
pub open spec fn has_move(s: Seq<BookMove>, m: BoardMove) -> bool {
    exists|i: int| 0 <= i < s.len() && #[trigger] s[i].board_move == m
}

/// The statistics of a move list: for each move, how often it was played
/// and its rating sum.
pub open spec fn move_stats(s: Seq<BookMove>) -> Map<BoardMove, (u32, u32)> {
    Map::new(
        |m: BoardMove| has_move(s, m),
        |m: BoardMove|
            {
                let i = choose|i: int| 0 <= i < s.len() && #[trigger] s[i].board_move == m;
                (s[i].times_played, s[i].rating_sum)
            },
    )
}

/// The statistics of a whole book: for each position, its move statistics
/// and its rating total.
pub open spec fn book_stats(v: Map<u64, (Seq<BookMove>, u32)>) -> Map<u64, (Map<BoardMove, (u32, u32)>, u32)> {
    Map::new(|k: u64| v.dom().contains(k), |k: u64| (move_stats(v[k].0), v[k].1))
}

/// The statistics after one more game played `m` in position `k`, by
/// players rated `elo` on average: the position's rating total grows by
/// `elo`; the move's count grows by one and its rating sum by `elo`, or the
/// move enters with count one. Sums wrap at 2^32 as in release builds.
pub open spec fn record_move(
    b: Map<u64, (Map<BoardMove, (u32, u32)>, u32)>,
    k: u64,
    m: BoardMove,
    elo: u32,
) -> Map<u64, (Map<BoardMove, (u32, u32)>, u32)> {
    let e = if b.dom().contains(k) {
        b[k]
    } else {
        (Map::empty(), 0u32)
    };
    let stat = if e.0.dom().contains(m) {
        (u32_specs::wrapping_add(e.0[m].0, 1), u32_specs::wrapping_add(e.0[m].1, elo))
    } else {
        (1u32, elo)
    };
    b.insert(k, (e.0.insert(m, stat), u32_specs::wrapping_add(e.1, elo)))
}

/// The statistics after recording each (position, move) pair of a game in
/// turn.
pub open spec fn record_game(
    b: Map<u64, (Map<BoardMove, (u32, u32)>, u32)>,
    ps: Seq<(u64, BoardMove)>,
    elo: u32,
) -> Map<u64, (Map<BoardMove, (u32, u32)>, u32)>
    decreases ps.len(),
{
    if ps.len() == 0 {
        b
    } else {
        record_move(record_game(b, ps.drop_last(), elo), ps.last().0, ps.last().1, elo)
    }
}

/// The statistics of the move at index `i` of a list without repeated moves.
pub proof fn lemma_stats_at(s: Seq<BookMove>, i: int)
    requires
        distinct_moves(s),
        0 <= i < s.len(),
    ensures
        move_stats(s).dom().contains(s[i].board_move),
        move_stats(s)[s[i].board_move] == (s[i].times_played, s[i].rating_sum),
{
    let m = s[i].board_move;
    assert(has_move(s, m));
    let j = choose|j: int| 0 <= j < s.len() && #[trigger] s[j].board_move == m;
    if j < i {
        assert(s[j].board_move != s[i].board_move);
    } else if i < j {
        assert(s[i].board_move != s[j].board_move);
    }
}

/// A list without moves has no statistics.
proof fn lemma_empty_stats()
    ensures
        move_stats(Seq::<BookMove>::empty()) == Map::<BoardMove, (u32, u32)>::empty(),
{
    assert(move_stats(Seq::<BookMove>::empty()) =~= Map::<BoardMove, (u32, u32)>::empty());
}

/// Replacing a move's statistics in place.
proof fn lemma_update_stats(s: Seq<BookMove>, i: int, x: BookMove)
    requires
        distinct_moves(s),
        0 <= i < s.len(),
        x.board_move == s[i].board_move,
    ensures
        distinct_moves(s.update(i, x)),
        move_stats(s.update(i, x)) == move_stats(s).insert(x.board_move, (x.times_played, x.rating_sum)),
{
    let t = s.update(i, x);
    assert forall|a: int, b: int| 0 <= a < b < t.len() implies #[trigger] t[a].board_move != #[trigger] t[b].board_move by {
        assert(s[a].board_move != s[b].board_move);
    }
    lemma_stats_at(s, i);
    lemma_stats_at(t, i);
    assert forall|m: BoardMove| has_move(t, m) <==> has_move(s, m) by {
        if has_move(t, m) {
            let j = choose|j: int| 0 <= j < t.len() && #[trigger] t[j].board_move == m;
            assert(s[j].board_move == m);
        }
        if has_move(s, m) {
            let j = choose|j: int| 0 <= j < s.len() && #[trigger] s[j].board_move == m;
            assert(t[j].board_move == m);
        }
    }
    assert forall|m: BoardMove| #[trigger] move_stats(t).dom().contains(m) && m != x.board_move implies move_stats(t)[m]
        == move_stats(s)[m] by {
        let j = choose|j: int| 0 <= j < t.len() && #[trigger] t[j].board_move == m;
        assert(j != i);
        lemma_stats_at(s, j);
        lemma_stats_at(t, j);
    }
    assert(move_stats(t) =~= move_stats(s).insert(x.board_move, (x.times_played, x.rating_sum)));
}

/// Appending a move the list does not hold.
proof fn lemma_push_stats(s: Seq<BookMove>, x: BookMove)
    requires
        distinct_moves(s),
        !has_move(s, x.board_move),
    ensures
        distinct_moves(s.push(x)),
        move_stats(s.push(x)) == move_stats(s).insert(x.board_move, (x.times_played, x.rating_sum)),
{
    let t = s.push(x);
    assert forall|a: int, b: int| 0 <= a < b < t.len() implies #[trigger] t[a].board_move != #[trigger] t[b].board_move by {
        if b == s.len() {
            assert(s[a].board_move == t[a].board_move);
            if s[a].board_move == x.board_move {
                assert(has_move(s, x.board_move));
            }
        } else {
            assert(s[a].board_move != s[b].board_move);
        }
    }
    lemma_stats_at(t, s.len() as int);
    assert forall|m: BoardMove| has_move(t, m) <==> (has_move(s, m) || m == x.board_move) by {
        if has_move(t, m) && m != x.board_move {
            let j = choose|j: int| 0 <= j < t.len() && #[trigger] t[j].board_move == m;
            assert(j < s.len());
            assert(s[j].board_move == m);
        }
        if has_move(s, m) {
            let j = choose|j: int| 0 <= j < s.len() && #[trigger] s[j].board_move == m;
            assert(t[j].board_move == m);
        }
    }
    assert forall|m: BoardMove| #[trigger] move_stats(t).dom().contains(m) && m != x.board_move implies move_stats(t)[m]
        == move_stats(s)[m] by {
        let j = choose|j: int| 0 <= j < t.len() && #[trigger] t[j].board_move == m;
        assert(j < s.len());
        lemma_stats_at(s, j);
        lemma_stats_at(t, j);
    }
    assert(move_stats(t) =~= move_stats(s).insert(x.board_move, (x.times_played, x.rating_sum)));
}

/// Reordering a list keeps its statistics and keeps moves unrepeated.
pub proof fn lemma_permuted_stats(a: Seq<BookMove>, b: Seq<BookMove>)
    requires
        a.to_multiset() == b.to_multiset(),
        distinct_moves(a),
    ensures
        distinct_moves(b),
        move_stats(b) == move_stats(a),
{
    broadcast use vstd::seq_lib::group_to_multiset_ensures;

    assert(a.no_duplicates()) by {
        assert forall|i: int, j: int| 0 <= i < a.len() && 0 <= j < a.len() && i != j implies a[i] != a[j] by {
            if i < j {
                assert(a[i].board_move != a[j].board_move);
            } else {
                assert(a[j].board_move != a[i].board_move);
            }
        }
    }
    a.lemma_multiset_has_no_duplicates();
    b.lemma_multiset_has_no_duplicates_conv();
    assert forall|x: BookMove| #[trigger] b.contains(x) implies a.contains(x) by {
        assert(b.to_multiset().count(x) > 0);
    }
    assert forall|x: BookMove| #[trigger] a.contains(x) implies b.contains(x) by {
        assert(a.to_multiset().count(x) > 0);
    }
    assert forall|i: int, j: int| 0 <= i < j < b.len() implies #[trigger] b[i].board_move != #[trigger] b[j].board_move by {
        if b[i].board_move == b[j].board_move {
            assert(b[i] != b[j]);
            assert(b.contains(b[i]));
            assert(b.contains(b[j]));
            let p = choose|p: int| 0 <= p < a.len() && a[p] == b[i];
            let q = choose|q: int| 0 <= q < a.len() && a[q] == b[j];
            if p < q {
                assert(a[p].board_move != a[q].board_move);
            } else if q < p {
                assert(a[q].board_move != a[p].board_move);
            }
        }
    }
    assert forall|m: BoardMove| has_move(b, m) <==> has_move(a, m) by {
        if has_move(b, m) {
            let j = choose|j: int| 0 <= j < b.len() && #[trigger] b[j].board_move == m;
            assert(b.contains(b[j]));
            let p = choose|p: int| 0 <= p < a.len() && a[p] == b[j];
            assert(a[p].board_move == m);
        }
        if has_move(a, m) {
            let j = choose|j: int| 0 <= j < a.len() && #[trigger] a[j].board_move == m;
            assert(a.contains(a[j]));
            let p = choose|p: int| 0 <= p < b.len() && b[p] == a[j];
            assert(b[p].board_move == m);
        }
    }
    assert forall|m: BoardMove| #[trigger] move_stats(b).dom().contains(m) implies move_stats(b)[m] == move_stats(a)[m] by {
        let j = choose|j: int| 0 <= j < b.len() && #[trigger] b[j].board_move == m;
        assert(b.contains(b[j]));
        let p = choose|p: int| 0 <= p < a.len() && a[p] == b[j];
        lemma_stats_at(b, j);
        lemma_stats_at(a, p);
    }
    assert(move_stats(b) =~= move_stats(a));
}

/// Whether `x` orders after `y` as tuples compare: by rating, then by key.
pub open spec fn pair_after(x: (u32, u64), y: (u32, u64)) -> bool {
    x.0 > y.0 || (x.0 == y.0 && x.1 > y.1)
}

/// The index of the greatest of the first `n` pairs (the first such).
pub open spec fn greatest_index(h: Seq<(u32, u64)>, n: int) -> int
    decreases n,
{
    if n <= 1 {
        0
    } else {
        let g = greatest_index(h, n - 1);
        if pair_after(h[n - 1], h[g]) {
            n - 1
        } else {
            g
        }
    }
}

/// The max-heap of (rating, key) pairs after the first `n` pairs of a walk:
/// while it holds fewer than `max` pairs each pair enters; afterwards a pair
/// whose rating exceeds that of the heap's greatest pair replaces that pair.
pub open spec fn heap_after(walk: Seq<(u32, u64)>, max: nat, n: int) -> Seq<(u32, u64)>
    decreases n,
{
    if n <= 0 {
        Seq::empty()
    } else {
        let h = heap_after(walk, max, n - 1);
        let e = walk[n - 1];
        if h.len() < max {
            h.push(e)
        } else {
            let g = greatest_index(h, h.len() as int);
            if e.0 > h[g].0 {
                h.remove(g).push(e)
            } else {
                h
            }
        }
    }
}

/// The keys of a walk, each with its position's rating total.
pub open spec fn rated_walk(v: Map<u64, (Seq<BookMove>, u32)>, walk: Seq<u64>) -> Seq<(u32, u64)> {
    walk.map_values(|k: u64| (v[k].1, k))
}

/// The keys a heap holds.
pub open spec fn heap_keys(h: Seq<(u32, u64)>) -> Set<u64> {
    Set::new(|k: u64| exists|i: int| 0 <= i < h.len() && #[trigger] h[i].1 == k)
}

/// The greatest index only looks at the pairs before `n`.
proof fn lemma_greatest_prefix(h: Seq<(u32, u64)>, e: (u32, u64), n: int)
    requires
        0 <= n <= h.len(),
    ensures
        greatest_index(h.push(e), n) == greatest_index(h, n),
    decreases n,
{
    if n > 1 {
        lemma_greatest_prefix(h, e, n - 1);
        lemma_greatest_is_greatest(h, n - 1);
        let g = greatest_index(h, n - 1);
        assert(h.push(e)[n - 1] == h[n - 1]);
        assert(h.push(e)[g] == h[g]);
    }
}

/// The greatest index names a pair that no other pair orders after.
proof fn lemma_greatest_is_greatest(h: Seq<(u32, u64)>, n: int)
    requires
        1 <= n <= h.len(),
    ensures
        0 <= greatest_index(h, n) < n,
        forall|j: int| 0 <= j < n ==> !pair_after(#[trigger] h[j], h[greatest_index(h, n)]),
    decreases n,
{
    if n > 1 {
        lemma_greatest_is_greatest(h, n - 1);
    }
}

/// The greatest index after appending a pair.
proof fn lemma_greatest_push(h: Seq<(u32, u64)>, e: (u32, u64))
    ensures
        greatest_index(h.push(e), (h.len() + 1) as int) == (if h.len() == 0 {
            0
        } else if pair_after(e, h[greatest_index(h, h.len() as int)]) {
            h.len() as int
        } else {
            greatest_index(h, h.len() as int)
        }),
{
    if h.len() > 0 {
        lemma_greatest_prefix(h, e, h.len() as int);
        lemma_greatest_is_greatest(h, h.len() as int);
    }
}

/// The counts (or, with `ratings`, the rating sums) of a move list, in order.
pub open spec fn move_values(s: Seq<BookMove>, ratings: bool) -> Seq<u32> {
    s.map_values(|m: BookMove| if ratings {
        m.rating_sum
    } else {
        m.times_played
    })
}

/// The counts (or rating sums) of the positions of a walk, one position
/// after another.
pub open spec fn walk_values(v: Map<u64, (Seq<BookMove>, u32)>, walk: Seq<u64>, ratings: bool) -> Seq<u32>
    decreases walk.len(),
{
    if walk.len() == 0 {
        Seq::empty()
    } else {
        walk_values(v, walk.drop_last(), ratings) + move_values(v[walk.last()].0, ratings)
    }
}

/// The sum of a sequence of 32-bit values, wrapping at 2^32 as release
/// builds do.
pub open spec fn wrapping_total(xs: Seq<u32>) -> u32
    decreases xs.len(),
{
    if xs.len() == 0 {
        0
    } else {
        u32_specs::wrapping_add(wrapping_total(xs.drop_last()), xs.last())
    }
}

/// Whether `walk` lists each position of a book once.
pub open spec fn walks_book(v: Map<u64, (Seq<BookMove>, u32)>, walk: Seq<u64>) -> bool {
    &&& walk.no_duplicates()
    &&& walk.len() == v.dom().len()
    &&& forall|k: u64| #[trigger] walk.contains(k) <==> v.dom().contains(k)
}

/// The lower-case hexadecimal digit of a value below 16.
pub open spec fn hex_char(d: int) -> char {
    if d < 10 {
        (d + 48) as char
    } else {
        (d + 87) as char
    }
}

/// The last `n` hexadecimal digits of `k`, most significant first.
pub open spec fn hex_digits(k: nat, n: nat) -> Seq<char>
    decreases n,
{
    if n == 0 {
        Seq::empty()
    } else {
        hex_digits(k / 16, (n - 1) as nat).push(hex_char((k % 16) as int))
    }
}

/// A move of the book as a word of its file: the move's name, how often it
/// was played and its rating sum, separated by colons (`e2e4:12:25000`).
pub open spec fn book_word(m: BookMove) -> Seq<char> {
    move_name(m.board_move) + seq![':'] + decimal(m.times_played as nat) + seq![':'] + decimal(
        m.rating_sum as nat,
    )
}

/// The words after a position's key in a book file: a space and the word of
/// each move, in order.
pub open spec fn moves_text(s: Seq<BookMove>) -> Seq<char>
    decreases s.len(),
{
    if s.len() == 0 {
        Seq::empty()
    } else {
        moves_text(s.drop_last()) + seq![' '] + book_word(s.last())
    }
}

/// The line of a book file for one position: the key as sixteen hexadecimal
/// digits, then the word of each of its moves (`move:games:ratings`).
pub open spec fn entry_line(k: u64, s: Seq<BookMove>) -> Seq<char> {
    hex_digits(k as nat, 16) + moves_text(s)
}

/// The first line of a book file.
pub open spec fn book_title() -> Seq<char> {
    "# prokopakopening book v2.0 (with ELO weighting)"@
}

/// The lines of a book file for a walk of its positions: a title, the
/// number of positions, an empty line, then one line per position.
pub open spec fn book_file_lines(v: Map<u64, (Seq<BookMove>, u32)>, walk: Seq<u64>) -> Seq<Seq<char>> {
    seq![book_title(), "# Positions: "@ + decimal(walk.len()), Seq::empty()] + walk.map_values(
        |k: u64| entry_line(k, v[k].0),
    )
}

/// Appends the last `n` hexadecimal digits of `k`.
fn push_hex(r: &mut String, k: u64, n: usize)
    ensures
        final(r)@ == old(r)@ + hex_digits(k as nat, n as nat),
    decreases n,
{
    if n > 0 {
        push_hex(r, k / 16, n - 1);
        let d = k % 16;
        let c = if d < 10 {
            ((d + 48) as u8) as char
        } else {
            ((d + 87) as u8) as char
        };
        push_char(r, c);
        assert(final(r)@ =~= old(r)@ + hex_digits(k as nat, n as nat)) by {
            assert(hex_digits(k as nat, n as nat) == hex_digits((k / 16) as nat, (n - 1) as nat).push(
                hex_char((k % 16) as int),
            ));
        }
    }
}

/// The value of a hexadecimal digit of either case, if it is one.
pub open spec fn hex_digit_value(c: char) -> Option<int> {
    if '0' <= c <= '9' {
        Some(c as int - 48)
    } else if 'a' <= c <= 'f' {
        Some(c as int - 87)
    } else if 'A' <= c <= 'F' {
        Some(c as int - 55)
    } else {
        None
    }
}

/// The value of the first `n` characters read as hexadecimal digits.
pub open spec fn hex_value(t: Seq<char>, n: int) -> Option<int>
    decreases n,
{
    if n <= 0 {
        Some(0)
    } else {
        match (hex_value(t, n - 1), hex_digit_value(t[n - 1])) {
            (Some(v), Some(d)) => Some(16 * v + d),
            _ => None,
        }
    }
}

/// What `u64::from_str_radix(t, 16)` answers: an optional `+`, then at
/// least one hexadecimal digit, the value fitting 64 bits.
pub open spec fn parse_hex(t: Seq<char>) -> Option<u64> {
    let d = if t.len() > 0 && t[0] == '+' {
        t.drop_first()
    } else {
        t
    };
    if d.len() == 0 {
        None
    } else {
        match hex_value(d, d.len() as int) {
            Some(v) => if v <= u64::MAX {
                Some(v as u64)
            } else {
                None
            },
            None => None,
        }
    }
}

/// The parts of a word between its colons (the word itself where it has
/// none).
pub open spec fn colon_parts(w: Seq<char>) -> Seq<Seq<char>>
    decreases w.len(),
{
    if w.len() == 0 {
        seq![Seq::empty()]
    } else {
        let p = colon_parts(w.drop_last());
        if w.last() == ':' {
            p.push(Seq::empty())
        } else {
            p.update(p.len() - 1, p.last().push(w.last()))
        }
    }
}

/// The move a word `move:games:ratings` names, with its statistics: three
/// parts, a move and two decimal numbers that fit 32 bits.
pub open spec fn counted_move(w: Seq<char>) -> Option<BookMove> {
    let ps = colon_parts(w);
    if ps.len() == 3 {
        match (
            spec_parse_move(ps[0]),
            parse_unsigned(ps[1], u32::MAX as int),
            parse_unsigned(ps[2], u32::MAX as int),
        ) {
            (Some(m), Some(t), Some(r)) => Some(
                BookMove { board_move: m, times_played: t as u32, rating_sum: r as u32 },
            ),
            _ => None,
        }
    } else {
        None
    }
}

/// The move a word of a book file names: `move:games:ratings`, or else the
/// move the whole word names, entering with no games.
pub open spec fn word_move(w: Seq<char>) -> Option<BookMove> {
    match counted_move(w) {
        Some(b) => Some(b),
        None => match spec_parse_move(w) {
            Some(m) => Some(BookMove { board_move: m, times_played: 0, rating_sum: 0 }),
            None => None,
        },
    }
}

/// The moves that words name, in order, skipping words that name none.
pub open spec fn word_moves(ws: Seq<Seq<char>>) -> Seq<BookMove>
    decreases ws.len(),
{
    if ws.len() == 0 {
        Seq::empty()
    } else {
        let r = word_moves(ws.drop_last());
        match word_move(ws.last()) {
            Some(m) => r.push(m),
            None => r,
        }
    }
}

/// The position a line of a book file describes: at least two words, the
/// first a hexadecimal key (so comment lines, starting with `#`, describe
/// none), and the moves the other words name.
pub open spec fn line_entry(line: Seq<char>) -> Option<(u64, Seq<BookMove>)> {
    let ws = tokens(line);
    if ws.len() >= 2 {
        match parse_hex(ws[0]) {
            Some(k) => Some((k, word_moves(ws.drop_first()))),
            None => None,
        }
    } else {
        None
    }
}

/// The positions the lines of a book file describe: a line with at least
/// one move sets its position's moves, later lines winning.
pub open spec fn loaded_entries(lines: Seq<Seq<char>>) -> Map<u64, Seq<BookMove>>
    decreases lines.len(),
{
    if lines.len() == 0 {
        Map::empty()
    } else {
        let m = loaded_entries(lines.drop_last());
        match line_entry(lines.last()) {
            Some(e) => if e.1.len() > 0 {
                m.insert(e.0, e.1)
            } else {
                m
            },
            None => m,
        }
    }
}

proof fn lemma_hex_value_none(t: Seq<char>, n: int, k: int)
    requires
        0 <= k <= n,
        hex_value(t, k) is None,
    ensures
        hex_value(t, n) is None,
    decreases n - k,
{
    if n > k {
        lemma_hex_value_none(t, n, k + 1);
    }
}

proof fn lemma_hex_value_big(t: Seq<char>, n: int, k: int)
    requires
        0 <= k <= n,
        hex_value(t, k) matches Some(v) && v > u64::MAX,
    ensures
        hex_value(t, n) matches Some(w) ==> w > u64::MAX,
    decreases n - k,
{
    if n > k {
        if hex_value(t, k + 1) is Some {
            lemma_hex_value_big(t, n, k + 1);
        } else {
            lemma_hex_value_none(t, n, k + 1);
        }
    }
}

/// Reads a hexadecimal key (`u64::from_str_radix` with radix 16).
fn parse_hex_word(t: &Vec<char>) -> (r: Option<u64>)
    ensures
        r == parse_hex(t@),
{
    let n = t.len();
    let start: usize = if n > 0 && t[0] == '+' {
        1
    } else {
        0
    };
    let ghost d = if t@.len() > 0 && t@[0] == '+' {
        t@.drop_first()
    } else {
        t@
    };
    assert(d =~= t@.subrange(start as int, n as int));
    if start == n {
        return None;
    }
    let mut v: u64 = 0;
    let mut i: usize = start;
    while i < n
        invariant
            start <= i <= n,
            n == t@.len(),
            d == t@.subrange(start as int, n as int),
            d.len() > 0,
            d == (if t@.len() > 0 && t@[0] == '+' {
                t@.drop_first()
            } else {
                t@
            }),
            hex_value(d, i - start) == Some(v as int),
        decreases n - i,
    {
        let c = t[i];
        assert(d[i - start] == c);
        let digit: u64 = if '0' <= c && c <= '9' {
            (c as u32 - 48) as u64
        } else if 'a' <= c && c <= 'f' {
            (c as u32 - 87) as u64
        } else if 'A' <= c && c <= 'F' {
            (c as u32 - 55) as u64
        } else {
            proof {
                assert(hex_value(d, i - start + 1) is None);
                lemma_hex_value_none(d, d.len() as int, i - start + 1);
            }
            return None;
        };
        assert(hex_value(d, i - start + 1) == Some(16 * (v as int) + digit as int));
        if v > (u64::MAX - digit) / 16 {
            proof {
                assert(16 * (v as int) + digit as int > u64::MAX) by (nonlinear_arith)
                    requires
                        v > (u64::MAX - digit) / 16,
                        digit <= 15,
                ;
                lemma_hex_value_big(d, d.len() as int, i - start + 1);
            }
            return None;
        }
        assert(16 * (v as int) + digit as int <= u64::MAX) by (nonlinear_arith)
            requires
                v <= (u64::MAX - digit) / 16,
                digit <= 15,
        ;
        v = 16 * v + digit;
        i = i + 1;
    }
    Some(v)
}

/// Splits a word at its colons.
fn colon_split(w: &Vec<char>) -> (r: Vec<Vec<char>>)
    ensures
        r@.len() == colon_parts(w@).len(),
        forall|q: int| 0 <= q < r@.len() ==> (#[trigger] r@[q])@ == colon_parts(w@)[q],
{
    let mut done: Vec<Vec<char>> = Vec::new();
    let mut cur: Vec<char> = Vec::new();
    let mut i: usize = 0;
    assert(w@.take(0) =~= Seq::<char>::empty());
    while i < w.len()
        invariant
            i <= w@.len(),
            colon_parts(w@.take(i as int)).len() == done@.len() + 1,
            forall|q: int| 0 <= q < done@.len() ==> (#[trigger] done@[q])@ == colon_parts(w@.take(i as int))[q],
            cur@ == colon_parts(w@.take(i as int))[done@.len() as int],
        decreases w@.len() - i,
    {
        let c = w[i];
        let ghost p = colon_parts(w@.take(i as int));
        assert(w@.take(i + 1).drop_last() =~= w@.take(i as int));
        assert(w@.take(i + 1).last() == c);
        if c == ':' {
            done.push(cur);
            cur = Vec::new();
            assert forall|q: int| 0 <= q < done@.len() implies (#[trigger] done@[q])@ == colon_parts(w@.take(i + 1))[q] by {
                assert(colon_parts(w@.take(i + 1)) == p.push(Seq::<char>::empty()));
            }
        } else {
            cur.push(c);
        }
        i = i + 1;
    }
    assert(w@.take(w@.len() as int) =~= w@);
    done.push(cur);
    done
}

/// Reads a word of a book file (see `word_move`).
fn read_book_word(w: &Vec<char>) -> (r: Option<BookMove>)
    ensures
        r == word_move(w@),
{
    let word = string_from(w);
    let parts = colon_split(w);
    if parts.len() == 3 {
        let name = string_from(&parts[0]);
        let m = crate::board_move::parse(name.as_str());
        let games = parse_unsigned_exec(parts[1].as_slice(), 0xffff_ffff);
        let ratings = parse_unsigned_exec(parts[2].as_slice(), 0xffff_ffff);
        match (m, games, ratings) {
            (Some(m), Some(g), Some(r)) => {
                return Some(BookMove { board_move: m, times_played: g as u32, rating_sum: r as u32 });
            },
            _ => {},
        }
    }
    match crate::board_move::parse(word.as_str()) {
        Some(m) => Some(BookMove { board_move: m, times_played: 0, rating_sum: 0 }),
        None => None,
    }
}

/// The characters of each line.
pub open spec fn text_lines(ls: Seq<String>) -> Seq<Seq<char>> {
    ls.map_values(|s: String| s@)
}

/// Whether a book holds what the lines of a book file describe: the same
/// positions, each with no rating total and with the described moves and
/// statistics, most played first (the sort leaves moves played equally
/// often in an order it does not promise).
pub open spec fn loaded_as(v: Map<u64, (Seq<BookMove>, u32)>, lines: Seq<Seq<char>>) -> bool {
    let e = loaded_entries(lines);
    &&& v.dom() == e.dom()
    &&& forall|k: u64| #[trigger] v.dom().contains(k) ==> {
        &&& v[k].1 == 0
        &&& v[k].0.to_multiset() == e[k].to_multiset()
        &&& most_played_first(v[k].0)
    }
}

/// 16 to the power `n`.
pub open spec fn pow16(n: nat) -> nat
    decreases n,
{
    if n == 0 {
        1
    } else {
        16 * pow16((n - 1) as nat)
    }
}

/// The words of the moves of a list.
pub open spec fn book_words(s: Seq<BookMove>) -> Seq<Seq<char>> {
    s.map_values(|m: BookMove| book_word(m))
}

/// Whether every move of a list is encoded as parsing its name would
/// encode it.
pub open spec fn all_canonical(s: Seq<BookMove>) -> bool {
    forall|i: int| 0 <= i < s.len() ==> canonical(#[trigger] s[i].board_move)
}

proof fn lemma_pow16_positive(n: nat)
    ensures
        pow16(n) > 0,
    decreases n,
{
    if n > 0 {
        lemma_pow16_positive((n - 1) as nat);
    }
}

proof fn lemma_hex_value_push(t: Seq<char>, c: char, n: int)
    requires
        0 <= n <= t.len(),
    ensures
        hex_value(t.push(c), n) == hex_value(t, n),
    decreases n,
{
    if n > 0 {
        lemma_hex_value_push(t, c, n - 1);
        assert(t.push(c)[n - 1] == t[n - 1]);
    }
}

proof fn lemma_hex_digits(k: nat, n: nat)
    ensures
        hex_digits(k, n).len() == n,
        hex_value(hex_digits(k, n), n as int) == Some((k % pow16(n)) as int),
        forall|q: int| 0 <= q < n ==> #[trigger] hex_digit_value(hex_digits(k, n)[q]) is Some,
    decreases n,
{
    if n > 0 {
        let prev = hex_digits(k / 16, (n - 1) as nat);
        lemma_hex_digits(k / 16, (n - 1) as nat);
        let d = (k % 16) as int;
        let c = hex_char(d);
        assert(hex_digit_value(c) == Some(d));
        lemma_hex_value_push(prev, c, (n - 1) as int);
        lemma_pow16_positive((n - 1) as nat);
        vstd::arithmetic::div_mod::lemma_mod_breakdown(k as int, 16, pow16((n - 1) as nat) as int);
        assert(hex_digits(k, n) == prev.push(c));
        assert forall|q: int| 0 <= q < n implies #[trigger] hex_digit_value(hex_digits(k, n)[q]) is Some by {
            if q < n - 1 {
                assert(hex_digits(k, n)[q] == prev[q]);
            }
        }
    }
}

/// Sixteen hexadecimal digits form a word that reads back as the key.
proof fn lemma_hex16_parses(k: u64)
    ensures
        is_word(hex_digits(k as nat, 16)),
        parse_hex(hex_digits(k as nat, 16)) == Some(k),
{
    lemma_hex_digits(k as nat, 16);
    reveal_with_fuel(pow16, 17);
    assert(pow16(16) == 0x1_0000_0000_0000_0000);
    let t = hex_digits(k as nat, 16);
    assert forall|q: int| 0 <= q < t.len() implies !spec_is_whitespace(#[trigger] t[q]) by {
        assert(hex_digit_value(t[q]) is Some);
    }
    assert(hex_digit_value(t[0]) is Some);
}

/// The name of a well-encoded move is a word that reads back as the move.
proof fn lemma_move_name_word(m: BoardMove)
    requires
        canonical(m),
    ensures
        is_word(move_name(m)),
        spec_parse_move(move_name(m)) == Some(m),
{
    crate::laws::lemma_move_name_parses(m);
    let w = move_name(m);
    assert forall|q: int| 0 <= q < w.len() implies !spec_is_whitespace(#[trigger] w[q]) by {
        assert(crate::board_move::move_from(m) < 64);
        assert(crate::board_move::move_to(m) < 64);
        if q == 4 {
            let p = crate::board_move::move_promotion(m).unwrap();
            assert(w[4] == crate::pieces::piece_char(p));
        }
    }
}

proof fn lemma_colon_parts_nonempty(w: Seq<char>)
    ensures
        colon_parts(w).len() >= 1,
    decreases w.len(),
{
    if w.len() > 0 {
        lemma_colon_parts_nonempty(w.drop_last());
    }
}

/// Characters other than colons after a text extend its last part.
proof fn lemma_colon_parts_extend(x: Seq<char>, y: Seq<char>)
    requires
        forall|q: int| 0 <= q < y.len() ==> #[trigger] y[q] != ':',
    ensures
        colon_parts(x + y) == colon_parts(x).update(colon_parts(x).len() - 1, colon_parts(x).last() + y),
    decreases y.len(),
{
    lemma_colon_parts_nonempty(x);
    let p = colon_parts(x);
    if y.len() == 0 {
        assert(x + y =~= x);
        assert(p.update(p.len() - 1, p.last() + y) =~= p);
    } else {
        let y0 = y.drop_last();
        assert forall|q: int| 0 <= q < y0.len() implies #[trigger] y0[q] != ':' by {
            assert(y0[q] == y[q]);
        }
        lemma_colon_parts_extend(x, y0);
        assert((x + y).drop_last() =~= x + y0);
        assert((x + y).last() == y.last());
        assert(y[y.len() - 1] != ':');
        assert((p.last() + y0).push(y.last()) =~= p.last() + y);
        assert(p.update(p.len() - 1, p.last() + y0).update(p.len() - 1, p.last() + y) =~= p.update(
            p.len() - 1,
            p.last() + y,
        ));
    }
}

/// A colon after a text starts a new, empty part.
proof fn lemma_colon_parts_colon(x: Seq<char>)
    ensures
        colon_parts(x + seq![':']) == colon_parts(x).push(Seq::empty()),
{
    assert((x + seq![':']).drop_last() =~= x);
    assert((x + seq![':']).last() == ':');
}

/// The parts of `a:b:c`, where none of the three holds a colon.
proof fn lemma_colon_parts_three(a: Seq<char>, b: Seq<char>, c: Seq<char>)
    requires
        forall|q: int| 0 <= q < a.len() ==> #[trigger] a[q] != ':',
        forall|q: int| 0 <= q < b.len() ==> #[trigger] b[q] != ':',
        forall|q: int| 0 <= q < c.len() ==> #[trigger] c[q] != ':',
    ensures
        colon_parts(a + seq![':'] + b + seq![':'] + c) == seq![a, b, c],
{
    let e = Seq::<char>::empty();
    assert(colon_parts(e) == seq![e]);
    lemma_colon_parts_extend(e, a);
    assert(e + a =~= a);
    assert(colon_parts(a) =~= seq![a]);
    let x1 = a + seq![':'];
    lemma_colon_parts_colon(a);
    lemma_colon_parts_extend(x1, b);
    assert(e + b =~= b);
    assert(colon_parts(x1 + b) =~= seq![a, b]);
    let x2 = x1 + b + seq![':'];
    lemma_colon_parts_colon(x1 + b);
    lemma_colon_parts_extend(x2, c);
    assert(e + c =~= c);
    assert(colon_parts(x2 + c) =~= seq![a, b, c]);
    assert(a + seq![':'] + b + seq![':'] + c =~= x2 + c);
}

/// The word of a well-encoded move is a word of a book file that reads back
/// as the move with its statistics.
proof fn lemma_book_word(m: BookMove)
    requires
        canonical(m.board_move),
    ensures
        is_word(book_word(m)),
        word_move(book_word(m)) == Some(m),
{
    let name = move_name(m.board_move);
    let t = decimal(m.times_played as nat);
    let r = decimal(m.rating_sum as nat);
    let w = book_word(m);
    lemma_move_name_word(m.board_move);
    crate::laws::lemma_move_name_parses(m.board_move);
    lemma_decimal_reads(m.times_played as nat);
    lemma_decimal_reads(m.rating_sum as nat);
    lemma_decimal_parses(m.times_played as nat, u32::MAX as int);
    lemma_decimal_parses(m.rating_sum as nat, u32::MAX as int);
    assert forall|q: int| 0 <= q < name.len() implies #[trigger] name[q] != ':' by {
        assert(crate::board_move::move_from(m.board_move) < 64);
        assert(crate::board_move::move_to(m.board_move) < 64);
        if q == 4 {
            let p = crate::board_move::move_promotion(m.board_move).unwrap();
            assert(name[4] == crate::pieces::piece_char(p));
        }
    }
    assert forall|q: int| 0 <= q < t.len() implies #[trigger] t[q] != ':' by {
        assert('0' <= t[q] <= '9');
    }
    assert forall|q: int| 0 <= q < r.len() implies #[trigger] r[q] != ':' by {
        assert('0' <= r[q] <= '9');
    }
    lemma_colon_parts_three(name, t, r);
    assert(w =~= name + seq![':'] + t + seq![':'] + r);
    assert(counted_move(w) == Some(m));
    let n1 = name.len() as int;
    let n2 = n1 + 1 + t.len();
    assert forall|q: int| 0 <= q < w.len() implies !spec_is_whitespace(#[trigger] w[q]) && (w[q] as u32) < 128 by {
        if q < n1 {
            assert(w[q] == name[q]);
        } else if q == n1 {
            assert(w[q] == ':');
        } else if q < n2 {
            assert(w[q] == t[q - n1 - 1]);
            assert('0' <= t[q - n1 - 1] <= '9');
        } else if q == n2 {
            assert(w[q] == ':');
        } else {
            assert(w[q] == r[q - n2 - 1]);
            assert('0' <= r[q - n2 - 1] <= '9');
        }
    }
}

proof fn lemma_entry_line_tokens(k: u64, s: Seq<BookMove>)
    requires
        all_canonical(s),
    ensures
        tokens(entry_line(k, s)) == seq![hex_digits(k as nat, 16)] + book_words(s),
    decreases s.len(),
{
    let hex = hex_digits(k as nat, 16);
    lemma_hex16_parses(k);
    if s.len() == 0 {
        lemma_tokens_of_word(hex);
        assert(entry_line(k, s) =~= hex);
        assert(seq![hex] + book_words(s) =~= seq![hex]);
    } else {
        let p = s.drop_last();
        lemma_entry_line_tokens(k, p);
        lemma_book_word(s.last());
        lemma_tokens_append_word(entry_line(k, p), book_word(s.last()));
        assert(entry_line(k, s) =~= entry_line(k, p) + seq![' '] + book_word(s.last()));
        assert(seq![hex] + book_words(s) =~= (seq![hex] + book_words(p)).push(book_word(s.last())));
    }
}

proof fn lemma_read_words(s: Seq<BookMove>)
    requires
        all_canonical(s),
    ensures
        word_moves(book_words(s)) == s,
    decreases s.len(),
{
    if s.len() == 0 {
        assert(word_moves(book_words(s)) =~= s);
    } else {
        let p = s.drop_last();
        lemma_read_words(p);
        assert(book_words(s).drop_last() =~= book_words(p));
        lemma_book_word(s.last());
        assert(s =~= p.push(s.last()));
    }
}

/// The line of a position reads back as the position and its moves, with
/// their statistics.
proof fn lemma_entry_line_read(k: u64, s: Seq<BookMove>)
    requires
        all_canonical(s),
        s.len() > 0,
    ensures
        line_entry(entry_line(k, s)) == Some((k, s)),
{
    lemma_entry_line_tokens(k, s);
    lemma_hex16_parses(k);
    lemma_read_words(s);
    let ws = tokens(entry_line(k, s));
    assert(ws.drop_first() =~= book_words(s));
    assert(ws[0] == hex_digits(k as nat, 16));
}

/// A line starting with `#` describes no position.
proof fn lemma_comment_line(l: Seq<char>)
    requires
        l.len() > 0,
        l[0] == '#',
    ensures
        line_entry(l) is None,
{
    lemma_first_token(l);
    let w = tokens(l)[0];
    assert(hex_value(w, 1) is None);
    lemma_hex_value_none(w, w.len() as int, 1);
}

/// The positions the first lines of a book's file describe: those of the
/// first `j` positions of the walk.
proof fn lemma_loaded_prefix(v: Map<u64, (Seq<BookMove>, u32)>, walk: Seq<u64>, j: int)
    requires
        walks_book(v, walk),
        forall|k: u64| #[trigger] v.dom().contains(k) ==> entry_wf(v[k].0) && all_canonical(v[k].0),
        0 <= j <= walk.len(),
    ensures
        loaded_entries(book_file_lines(v, walk).take(3 + j)) == Map::new(
            |k: u64| walk.take(j).contains(k),
            |k: u64| v[k].0,
        ),
    decreases j,
{
    let lines = book_file_lines(v, walk);
    if j == 0 {
        reveal_strlit("# prokopakopening book v2.0 (with ELO weighting)");
        reveal_strlit("# Positions: ");
        lemma_comment_line(lines[0]);
        lemma_comment_line(lines[1]);
        assert(tokens(lines[2]) =~= Seq::<Seq<char>>::empty());
        assert(line_entry(lines[2]) is None);
        assert(lines.take(1).drop_last() =~= Seq::<Seq<char>>::empty());
        assert(lines.take(2).drop_last() =~= lines.take(1));
        assert(lines.take(3).drop_last() =~= lines.take(2));
        assert(lines.take(1).last() == lines[0]);
        assert(lines.take(2).last() == lines[1]);
        assert(lines.take(3).last() == lines[2]);
        assert(loaded_entries(Seq::<Seq<char>>::empty()) =~= Map::<u64, Seq<BookMove>>::empty());
        assert(loaded_entries(lines.take(1)) =~= Map::<u64, Seq<BookMove>>::empty());
        assert(loaded_entries(lines.take(2)) =~= Map::<u64, Seq<BookMove>>::empty());
        assert(loaded_entries(lines.take(3)) =~= Map::<u64, Seq<BookMove>>::empty());
        assert(loaded_entries(lines.take(3)) =~= Map::new(
            |k: u64| walk.take(0).contains(k),
            |k: u64| v[k].0,
        ));
    } else {
        lemma_loaded_prefix(v, walk, j - 1);
        let k = walk[j - 1];
        assert(walk.contains(k));
        lemma_entry_line_read(k, v[k].0);
        assert(lines[3 + j - 1] == entry_line(k, v[k].0));
        assert(lines.take(3 + j).drop_last() =~= lines.take(3 + j - 1));
        assert forall|x: u64| #[trigger] walk.take(j).contains(x) <==> (walk.take(j - 1).contains(x) || x == k) by {
            if walk.take(j).contains(x) {
                let q = choose|q: int| 0 <= q < j && #[trigger] walk.take(j)[q] == x;
                if q < j - 1 {
                    assert(walk.take(j - 1)[q] == x);
                }
            }
            if walk.take(j - 1).contains(x) {
                let q = choose|q: int| 0 <= q < j - 1 && #[trigger] walk.take(j - 1)[q] == x;
                assert(walk.take(j)[q] == x);
            }
            if x == k {
                assert(walk.take(j)[j - 1] == x);
            }
        }
        assert(loaded_entries(lines.take(3 + j)) =~= Map::new(
            |x: u64| walk.take(j).contains(x),
            |x: u64| v[x].0,
        ));
    }
}

/// Reading back a book's file: the lines of a well-formed book whose moves
/// are well encoded can all be read, and they describe exactly the book's
/// positions, each with its moves and their statistics in the book's order.
pub proof fn lemma_file_lines_read_back(v: Map<u64, (Seq<BookMove>, u32)>, walk: Seq<u64>)
    requires
        walks_book(v, walk),
        forall|k: u64| #[trigger] v.dom().contains(k) ==> entry_wf(v[k].0) && all_canonical(v[k].0),
    ensures
        loaded_entries(book_file_lines(v, walk)) == Map::new(
            |k: u64| v.dom().contains(k),
            |k: u64| v[k].0,
        ),
{
    let lines = book_file_lines(v, walk);
    reveal_strlit("# prokopakopening book v2.0 (with ELO weighting)");
    reveal_strlit("# Positions: ");
    lemma_comment_line(lines[0]);
    lemma_comment_line(lines[1]);
    assert(tokens(lines[2]) =~= Seq::<Seq<char>>::empty());
    lemma_loaded_prefix(v, walk, walk.len() as int);
    assert(lines.take((3 + walk.len()) as int) =~= lines);
    assert(walk.take(walk.len() as int) =~= walk);
    assert(loaded_entries(lines) =~= Map::new(|k: u64| v.dom().contains(k), |k: u64| v[k].0));
}


/// Saving and loading a book: once the file lines of a well-formed book
/// whose moves are well encoded are read back, the book read holds the same
/// positions, each with the same moves and the same statistics (only moves
/// played equally often may change places), well formed, and with no rating
/// total, which the file does not hold.
pub proof fn lemma_book_file_round_trip(
    v: Map<u64, (Seq<BookMove>, u32)>,
    walk: Seq<u64>,
    w: Map<u64, (Seq<BookMove>, u32)>,
)
    requires
        walks_book(v, walk),
        forall|k: u64| #[trigger] v.dom().contains(k) ==> entry_wf(v[k].0) && all_canonical(v[k].0),
        loaded_as(w, book_file_lines(v, walk)),
    ensures
        w.dom() == v.dom(),
        forall|k: u64| #[trigger] w.dom().contains(k) ==> {
            &&& w[k].1 == 0
            &&& w[k].0.to_multiset() == v[k].0.to_multiset()
            &&& move_stats(w[k].0) == move_stats(v[k].0)
            &&& entry_wf(w[k].0)
        },
{
    lemma_file_lines_read_back(v, walk);
    assert forall|k: u64| #[trigger] w.dom().contains(k) implies {
        &&& w[k].1 == 0
        &&& w[k].0.to_multiset() == v[k].0.to_multiset()
        &&& move_stats(w[k].0) == move_stats(v[k].0)
        &&& entry_wf(w[k].0)
    } by {
        broadcast use vstd::seq_lib::group_to_multiset_ensures;

        assert(v.dom().contains(k));
        lemma_permuted_stats(v[k].0, w[k].0);
        assert(w[k].0.to_multiset().len() == v[k].0.to_multiset().len());
    }
}

/// The sort key that puts moves played more often first.
fn play_order_key(m: &BookMove) -> (r: u32)
    ensures
        r == u32::MAX - m.times_played,
{
    u32::MAX - m.times_played
}

/// Calls `slice::sort_unstable_by_key` with `play_order_key`: the moves end
/// up as a permutation of themselves ordered by that key, that is, most
/// played first. Which of two moves played equally often comes first is
/// left open, as the documentation leaves it.
#[verifier::external_body]
fn sort_most_played_first(moves: &mut Vec<BookMove>)
    ensures
        final(moves)@.to_multiset() == old(moves)@.to_multiset(),
        most_played_first(final(moves)@),
{
    moves.sort_unstable_by_key(|m| play_order_key(m));
}

/// Where a move stands in a list, if it is there.
fn find_move(moves: &Vec<BookMove>, board_move: BoardMove) -> (r: Option<usize>)
    ensures
        r matches Some(i) ==> i < moves@.len() && moves@[i as int].board_move == board_move,
        r is None ==> !has_move(moves@, board_move),
{
    let mut i: usize = 0;
    while i < moves.len()
        invariant
            i <= moves@.len(),
            forall|j: int| 0 <= j < i ==> #[trigger] moves@[j].board_move != board_move,
        decreases moves@.len() - i,
    {
        if moves[i].board_move == board_move {
            return Some(i);
        }
        i = i + 1;
    }
    None
}

/// The pairs a size-limited book keeps, from its positions' (rating total,
/// key) pairs in the order its map walks them (see `heap_after`).
pub fn select_by_rating(walk: &Vec<(u32, u64)>, max_positions: usize) -> (r: Vec<(u32, u64)>)
    requires
        max_positions > 0 || walk@.len() == 0,
    ensures
        r@ == heap_after(walk@, max_positions as nat, walk@.len() as int),
{
    let n = walk.len();
    let mut heap: Vec<(u32, u64)> = Vec::new();
    let mut g: usize = 0;
    let mut i: usize = 0;
    while i < n
        invariant
            n == walk@.len(),
            max_positions > 0 || n == 0,
            i <= n,
            heap@ == heap_after(walk@, max_positions as nat, i as int),
            heap@.len() <= max_positions,
            heap@.len() > 0 ==> g == greatest_index(heap@, heap@.len() as int),
            heap@.len() > 0 ==> g < heap@.len(),
        decreases n - i,
    {
        let e = walk[i];
        let ghost h = heap@;
        proof {
            lemma_greatest_push(h, e);
            if h.len() > 0 {
                lemma_greatest_is_greatest(h, h.len() as int);
            }
        }
        if heap.len() < max_positions {
            let new_g = if heap.len() == 0 {
                0
            } else if e.0 > heap[g].0 || (e.0 == heap[g].0 && e.1 > heap[g].1) {
                heap.len()
            } else {
                g
            };
            heap.push(e);
            g = new_g;
        } else if e.0 > heap[g].0 {
            heap.remove(g);
            let ghost rest = heap@;
            proof {
                lemma_greatest_push(rest, e);
                if rest.len() > 0 {
                    lemma_greatest_is_greatest(rest, rest.len() as int);
                    let gr = greatest_index(rest, rest.len() as int);
                    assert(rest[gr] == h[if gr < g { gr } else { gr + 1 }]);
                }
            }
            heap.push(e);
            g = heap.len() - 1;
        }
        i = i + 1;
    }
    heap
}

/// An opening book.
pub struct OpeningBook {
    positions: BookPositions,
}

impl View for OpeningBook {
    type V = Map<u64, (Seq<BookMove>, u32)>;

    /// For each position hash, its moves and its rating total.
    closed spec fn view(&self) -> Map<u64, (Seq<BookMove>, u32)> {
        book_position_entries(self.positions)
    }
}

impl OpeningBook {
    /// Every entry's moves are unrepeated and most played first.
    pub open spec fn wf(&self) -> bool {
        forall|k: u64| #[trigger] self@.dom().contains(k) ==> entry_wf(self@[k].0)
    }

    /// An empty book.
    pub fn new() -> (r: Self)
        ensures
            r.wf(),
            r@.dom() == Set::<u64>::empty(),
    {
        OpeningBook { positions: BookPositions::new() }
    }

    /// Records one (position, move) pair of a game rated `elo`.
    fn record(&mut self, key: u64, board_move: BoardMove, elo: u32)
        requires
            old(self).wf(),
        ensures
            final(self).wf(),
            book_stats(final(self)@) == record_move(book_stats(old(self)@), key, board_move, elo),
    {
        let ghost before = self@;
        let mut entry = match self.positions.remove(key) {
            Some(e) => e,
            None => BookEntry { moves: Vec::new(), total_rating: 0 },
        };
        let ghost s0 = entry.moves@;
        proof {
            if !before.dom().contains(key) {
                lemma_empty_stats();
            } else {
                assert(entry_wf(s0));
            }
            assert(distinct_moves(s0) && most_played_first(s0));
        }
        entry.total_rating = entry.total_rating.wrapping_add(elo);
        match find_move(&entry.moves, board_move) {
            Some(j) => {
                let found = entry.moves[j];
                let updated = BookMove {
                    board_move,
                    times_played: found.times_played.wrapping_add(1),
                    rating_sum: found.rating_sum.wrapping_add(elo),
                };
                proof {
                    lemma_stats_at(s0, j as int);
                    lemma_update_stats(s0, j as int, updated);
                }
                entry.moves.set(j, updated);
            },
            None => {
                let added = BookMove { board_move, times_played: 1, rating_sum: elo };
                proof {
                    lemma_push_stats(s0, added);
                }
                entry.moves.push(added);
            },
        }
        let ghost s1 = entry.moves@;
        sort_most_played_first(&mut entry.moves);
        proof {
            broadcast use vstd::seq_lib::group_to_multiset_ensures;

            lemma_permuted_stats(s1, entry.moves@);
            assert(entry.moves@.to_multiset().len() == s1.to_multiset().len());
        }
        self.positions.insert(key, entry);
        proof {
            let b = book_stats(before);
            assert(book_stats(self@) =~= record_move(b, key, board_move, elo));
            assert forall|k: u64| #[trigger] self@.dom().contains(k) implies entry_wf(self@[k].0) by {
                if k != key {
                    assert(before.dom().contains(k));
                }
            }
        }
    }

    /// Records a game: each (position hash, move) pair it went through, by
    /// players rated `average_elo` on average. The result of the game does
    /// not enter the book.
    pub fn add_game(&mut self, positions: Vec<(u64, BoardMove)>, game_result: GameResult, average_elo: u32)
        requires
            old(self).wf(),
        ensures
            final(self).wf(),
            book_stats(final(self)@) == record_game(book_stats(old(self)@), positions@, average_elo),
    {
        let mut i: usize = 0;
        while i < positions.len()
            invariant
                i <= positions@.len(),
                self.wf(),
                book_stats(self@) == record_game(book_stats(old(self)@), positions@.take(i as int), average_elo),
            decreases positions@.len() - i,
        {
            let (key, board_move) = positions[i];
            self.record(key, board_move, average_elo);
            assert(positions@.take(i + 1).drop_last() =~= positions@.take(i as int));
            i = i + 1;
        }
        assert(positions@.take(positions@.len() as int) =~= positions@);
    }

    /// Limits the book to `max_positions` positions when it holds more:
    /// its positions' (rating total, key) pairs, in the order the map walks
    /// them, go through `select_by_rating`, and the positions whose keys it
    /// keeps stay. The walk order is the map's and is left open; whatever it
    /// is, the book keeps the positions `heap_after` selects from it. With
    /// no room at all the book must be empty (the selection would take the
    /// greatest of an empty heap).
    pub fn prune_by_size(&mut self, max_positions: usize)
        requires
            old(self).wf(),
            max_positions > 0 || old(self)@.dom().len() == 0,
        ensures
            final(self).wf(),
            old(self)@.dom().len() <= max_positions ==> final(self)@ == old(self)@,
            old(self)@.dom().len() > max_positions ==> exists|walk: Seq<u64>|
                {
                    &&& walk.no_duplicates()
                    &&& walk.len() == old(self)@.dom().len()
                    &&& forall|k: u64| #[trigger] walk.contains(k) <==> old(self)@.dom().contains(k)
                    &&& final(self)@ == old(self)@.restrict(
                        heap_keys(heap_after(rated_walk(old(self)@, walk), max_positions as nat, walk.len() as int)),
                    )
                },
    {
        broadcast use vstd::std_specs::hash::group_hash_axioms;

        let ghost before = self@;
        if self.positions.len() <= max_positions {
            return;
        }
        let keys = self.positions.keys();
        let n = keys.len();
        let mut walk: Vec<(u32, u64)> = Vec::new();
        let mut i: usize = 0;
        while i < n
            invariant
                n == keys@.len(),
                i <= n,
                self@ == before,
                forall|k: u64| #[trigger] keys@.contains(k) <==> before.dom().contains(k),
                walk@ == rated_walk(before, keys@.take(i as int)),
            decreases n - i,
        {
            let k = keys[i];
            assert(keys@.contains(k));
            match self.positions.get(k) {
                Some(e) => {
                    walk.push((e.total_rating, k));
                },
                None => {},
            }
            assert(rated_walk(before, keys@.take(i + 1)) =~= rated_walk(before, keys@.take(i as int)).push(
                (before[k].1, k),
            ));
            i = i + 1;
        }
        assert(keys@.take(n as int) =~= keys@);
        let heap = select_by_rating(&walk, max_positions);
        let ghost kept = heap_keys(heap@);
        let mut keep: HashSet<u64> = HashSet::new();
        let mut j: usize = 0;
        while j < heap.len()
            invariant
                j <= heap@.len(),
                forall|k: u64| #[trigger] keep@.contains(k) <==> exists|q: int| 0 <= q < j && #[trigger] heap@[q].1 == k,
            decreases heap@.len() - j,
        {
            let ghost prev = keep@;
            keep.insert(heap[j].1);
            assert forall|k: u64| #[trigger] keep@.contains(k) <==> exists|q: int| 0 <= q < j + 1 && #[trigger] heap@[q].1 == k by {
                if k == heap@[j as int].1 {
                    assert(heap@[j as int].1 == k);
                }
                if exists|q: int| 0 <= q < j + 1 && #[trigger] heap@[q].1 == k {
                    let q = choose|q: int| 0 <= q < j + 1 && #[trigger] heap@[q].1 == k;
                    if q < j {
                        assert(prev.contains(k));
                    }
                }
            }
            j = j + 1;
        }
        assert forall|k: u64| #[trigger] keep@.contains(k) <==> kept.contains(k) by {}
        let mut t: usize = 0;
        while t < n
            invariant
                n == keys@.len(),
                t <= n,
                keys@.no_duplicates(),
                forall|k: u64| #[trigger] keys@.contains(k) <==> before.dom().contains(k),
                forall|k: u64| #[trigger] keep@.contains(k) <==> kept.contains(k),
                forall|k: u64|
                    #[trigger] self@.dom().contains(k) <==> (before.dom().contains(k) && (kept.contains(k)
                        || !keys@.take(t as int).contains(k))),
                forall|k: u64| #[trigger] self@.dom().contains(k) ==> self@[k] == before[k],
            decreases n - t,
        {
            let k = keys[t];
            let ghost cur = self@;
            let kept_here = keep.contains(&k);
            assert(kept_here == kept.contains(k));
            if !kept_here {
                self.positions.remove(k);
                assert(self@ == cur.remove(k));
            }
            assert forall|x: u64| #[trigger] keys@.take(t + 1).contains(x) <==> (keys@.take(t as int).contains(x) || x == k) by {
                if keys@.take(t + 1).contains(x) {
                    let q = choose|q: int| 0 <= q < t + 1 && #[trigger] keys@.take(t + 1)[q] == x;
                    if q < t {
                        assert(keys@.take(t as int)[q] == x);
                    }
                }
                if keys@.take(t as int).contains(x) {
                    let q = choose|q: int| 0 <= q < t && #[trigger] keys@.take(t as int)[q] == x;
                    assert(keys@.take(t + 1)[q] == x);
                }
                if x == k {
                    assert(keys@.take(t + 1)[t as int] == x);
                }
            }
            t = t + 1;
        }
        assert(keys@.take(n as int) =~= keys@);
        assert(self@ =~= before.restrict(kept));
        assert(walk@ == rated_walk(before, keys@));
        assert(forall|k: u64| #[trigger] self@.dom().contains(k) ==> before.dom().contains(k));
    }

    /// The sum of the counts (or rating sums) of all moves of the book.
    fn value_total(&self, ratings: bool) -> (r: u32)
        ensures
            exists|walk: Seq<u64>| walks_book(self@, walk) && r == wrapping_total(walk_values(self@, walk, ratings)),
    {
        let keys = self.positions.keys();
        let n = keys.len();
        let mut total: u32 = 0;
        let mut i: usize = 0;
        while i < n
            invariant
                n == keys@.len(),
                i <= n,
                forall|k: u64| #[trigger] keys@.contains(k) <==> self@.dom().contains(k),
                total == wrapping_total(walk_values(self@, keys@.take(i as int), ratings)),
            decreases n - i,
        {
            let k = keys[i];
            assert(keys@.contains(k));
            assert(keys@.take(i + 1).drop_last() =~= keys@.take(i as int));
            let ghost before = walk_values(self@, keys@.take(i as int), ratings);
            match self.positions.get(k) {
                Some(e) => {
                    let mut j: usize = 0;
                    while j < e.moves.len()
                        invariant
                            j <= e.moves@.len(),
                            total == wrapping_total(before + move_values(e.moves@.take(j as int), ratings)),
                        decreases e.moves@.len() - j,
                    {
                        let m = e.moves[j];
                        let x = if ratings {
                            m.rating_sum
                        } else {
                            m.times_played
                        };
                        let ghost prev = before + move_values(e.moves@.take(j as int), ratings);
                        assert(before + move_values(e.moves@.take(j + 1), ratings) =~= prev.push(x));
                        assert(prev.push(x).drop_last() =~= prev);
                        total = total.wrapping_add(x);
                        j = j + 1;
                    }
                    assert(e.moves@.take(e.moves@.len() as int) =~= e.moves@);
                },
                None => {},
            }
            i = i + 1;
        }
        assert(keys@.take(n as int) =~= keys@);
        assert(walks_book(self@, keys@));
        total
    }

    /// The number of games recorded: the sum of all moves' counts (wrapping
    /// at 2^32 as release builds do).
    pub fn total_games(&self) -> (r: u32)
        ensures
            exists|walk: Seq<u64>| walks_book(self@, walk) && r == wrapping_total(walk_values(self@, walk, false)),
    {
        self.value_total(false)
    }

    /// The sum of all moves' rating sums (wrapping at 2^32 as release builds
    /// do): divided by `total_games`, the book's average rating.
    pub fn total_rating_sum(&self) -> (r: u32)
        ensures
            exists|walk: Seq<u64>| walks_book(self@, walk) && r == wrapping_total(walk_values(self@, walk, true)),
    {
        self.value_total(true)
    }

    /// The lines of the book's file: a title, the number of positions, an
    /// empty line, then for each position, in the order the map walks them,
    /// its key in sixteen hexadecimal digits and its moves, each with how
    /// often it was played and its rating sum (`e2e4:12:25000`).
    pub fn file_lines(&self) -> (r: Vec<String>)
        ensures
            exists|walk: Seq<u64>|
                {
                    &&& walks_book(self@, walk)
                    &&& r@.len() == book_file_lines(self@, walk).len()
                    &&& forall|i: int| 0 <= i < r@.len() ==> #[trigger] r@[i]@ == book_file_lines(self@, walk)[i]
                },
    {
        let keys = self.positions.keys();
        let n = keys.len();
        let mut lines: Vec<String> = Vec::new();
        lines.push(string_of("# prokopakopening book v2.0 (with ELO weighting)"));
        let mut count = string_of("# Positions: ");
        push_decimal(&mut count, n as u64);
        lines.push(count);
        lines.push(String::new());
        let ghost head = seq![book_title(), "# Positions: "@ + decimal(keys@.len()), Seq::<char>::empty()];
        let mut i: usize = 0;
        while i < n
            invariant
                n == keys@.len(),
                i <= n,
                forall|k: u64| #[trigger] keys@.contains(k) <==> self@.dom().contains(k),
                lines@.len() == 3 + i,
                forall|q: int| 0 <= q < 3 ==> #[trigger] lines@[q]@ == head[q],
                forall|q: int| 0 <= q < i ==> #[trigger] lines@[3 + q]@ == entry_line(keys@[q], self@[keys@[q]].0),
            decreases n - i,
        {
            let k = keys[i];
            assert(keys@.contains(k));
            let mut line = String::new();
            push_hex(&mut line, k, 16);
            match self.positions.get(k) {
                Some(e) => {
                    let mut j: usize = 0;
                    while j < e.moves.len()
                        invariant
                            j <= e.moves@.len(),
                            line@ == hex_digits(k as nat, 16) + moves_text(e.moves@.take(j as int)),
                        decreases e.moves@.len() - j,
                    {
                        let bm = e.moves[j];
                        let name = crate::board_move::unparse(bm.board_move);
                        let ghost before = line@;
                        push_char(&mut line, ' ');
                        push_str(&mut line, name.as_str());
                        push_char(&mut line, ':');
                        push_decimal(&mut line, bm.times_played as u64);
                        push_char(&mut line, ':');
                        push_decimal(&mut line, bm.rating_sum as u64);
                        assert(e.moves@.take(j + 1).drop_last() =~= e.moves@.take(j as int));
                        assert(e.moves@.take(j + 1).last() == bm);
                        assert(line@ =~= before + seq![' '] + book_word(bm));
                        j = j + 1;
                    }
                    assert(e.moves@.take(e.moves@.len() as int) =~= e.moves@);
                },
                None => {},
            }
            lines.push(line);
            i = i + 1;
        }
        let ghost all = book_file_lines(self@, keys@);
        assert forall|q: int| 0 <= q < lines@.len() implies #[trigger] lines@[q]@ == all[q] by {
            if q >= 3 {
                assert(lines@[3 + (q - 3)]@ == entry_line(keys@[q - 3], self@[keys@[q - 3]].0));
            }
        }
        assert(walks_book(self@, keys@));
        lines
    }

    /// Reads a book from the lines of its file (see `line_entry` and
    /// `loaded_entries`); each move enters with the statistics its word
    /// gives. The book is well formed when no position's line repeats a
    /// move.
    pub fn load_from_lines(lines: &Vec<String>) -> (b: OpeningBook)
        ensures
            loaded_as(b@, text_lines(lines@)),
            (forall|k: u64| #[trigger] loaded_entries(text_lines(lines@)).dom().contains(k)
                ==> distinct_moves(loaded_entries(text_lines(lines@))[k])) ==> b.wf(),
    {
        let ghost t = text_lines(lines@);
        let mut book = OpeningBook::new();
        let mut i: usize = 0;
        while i < lines.len()
            invariant
                i <= lines@.len(),
                t == text_lines(lines@),
                loaded_as(book@, t.take(i as int)),
                forall|k: u64| #[trigger] book@.dom().contains(k) ==> book@[k].0.len() > 0,
                forall|k: u64| #[trigger] book@.dom().contains(k) ==> (distinct_moves(loaded_entries(t.take(i as int))[k])
                    ==> distinct_moves(book@[k].0)),
            decreases lines@.len() - i,
        {
            let ghost before = book@;
            let ghost e0 = loaded_entries(t.take(i as int));
            let ghost line = lines@[i as int]@;
            assert(t.take(i + 1).drop_last() =~= t.take(i as int));
            assert(t.take(i + 1).last() == line);
            let chars = chars_of(lines[i].as_str());
            let words = split_whitespace(&chars);
            let ghost ws = tokens(line);
            assert(chars@ == line);
            if words.len() >= 2 {
                assert(words@[0]@ == ws[0]);
                match parse_hex_word(&words[0]) {
                    Some(key) => {
                        let mut moves: Vec<BookMove> = Vec::new();
                        let mut j: usize = 1;
                        while j < words.len()
                            invariant
                                i < lines@.len(),
                                line == lines@[i as int]@,
                                ws == tokens(line),
                                ws.len() >= 2,
                                parse_hex(ws[0]) == Some(key),
                                1 <= j <= words@.len(),
                                words@.len() == ws.len(),
                                forall|q: int| 0 <= q < words@.len() ==> (#[trigger] words@[q])@ == ws[q],
                                moves@ == word_moves(ws.subrange(1, j as int)),
                            decreases words@.len() - j,
                        {
                            let read = read_book_word(&words[j]);
                            assert(ws.subrange(1, j + 1).drop_last() =~= ws.subrange(1, j as int));
                            assert(ws.subrange(1, j + 1).last() == ws[j as int]);
                            match read {
                                Some(m) => {
                                    moves.push(m);
                                },
                                None => {},
                            }
                            assert(moves@ =~= word_moves(ws.subrange(1, j + 1)));
                            j = j + 1;
                        }
                        assert(ws.subrange(1, ws.len() as int) =~= ws.drop_first());
                        let ghost pre = moves@;
                        sort_most_played_first(&mut moves);
                        proof {
                            if distinct_moves(word_moves(ws.drop_first())) {
                                lemma_permuted_stats(pre, moves@);
                            }
                        }
                        proof {
                            broadcast use vstd::seq_lib::group_to_multiset_ensures;

                            assert(moves@.to_multiset().len() == pre.to_multiset().len());
                            assert(moves@.len() == pre.len());
                            assert(line_entry(line) == Some((key, word_moves(ws.drop_first()))));
                        }
                        if moves.len() > 0 {
                            book.positions.insert(key, BookEntry { moves, total_rating: 0 });
                            proof {
                                assert(loaded_entries(t.take(i + 1)) == e0.insert(key, word_moves(ws.drop_first())));
                                assert forall|k: u64| #[trigger] book@.dom().contains(k) implies (distinct_moves(loaded_entries(t.take(i + 1))[k])
                                    ==> distinct_moves(book@[k].0)) by {
                                    if k != key {
                                        assert(before.dom().contains(k));
                                    }
                                }
                            }
                        } else {
                            assert(loaded_entries(t.take(i + 1)) == e0);
                        }
                    },
                    None => {},
                }
            }
            proof {
                if words@.len() < 2 || parse_hex(ws[0]) is None {
                    assert(line_entry(line) is None);
                    assert(loaded_entries(t.take(i + 1)) == e0);
                }
                assert(loaded_as(book@, t.take(i + 1)));
            }
            i = i + 1;
        }
        assert(t.take(lines@.len() as int) =~= t);
        book
    }

    /// The moves of a position, most played first.
    pub fn get_moves(&self, zobrist_key: u64) -> (r: Option<&[BookMove]>)
        ensures
            r is Some <==> self@.dom().contains(zobrist_key),
            r matches Some(s) ==> s@ == self@[zobrist_key].0,
    {
        match self.positions.get(zobrist_key) {
            Some(e) => Some(e.moves.as_slice()),
            None => None,
        }
    }

    /// The number of positions in the book.
    pub fn position_count(&self) -> (r: usize)
        ensures
            r == self@.dom().len(),
    {
        self.positions.len()
    }
}

} // verus!
