use vstd::prelude::*;
use crate::text::{push_char, string_of, string_from, spec_is_whitespace, whitespace};
use crate::fen::{chars_of, split_whitespace, tokens};
use crate::pieces::{Piece, Color};
use crate::board_move::{BoardMove, move_from, move_to, move_promotion, encode_move, get_from, get_to, get_promotion};
use crate::square::square_name;
use crate::rules::{Board, State, legal, legal_moves, state_after, king_square, consistent};
use crate::board::{Game, start_state};

verus! {

// Reading games in Portable Game Notation: headers, move text with
// comments and move numbers, and moves in standard algebraic notation.

/// The outcome of a game.
#[derive(Debug, Clone, Copy, PartialEq, Eq, Structural)]
pub enum GameResult {
    White,
    Black,
    Draw,
}

/// The number of bytes a character takes in UTF-8 (`char::len_utf8`).
pub open spec fn char_utf8_len(c: char) -> nat {
    if (c as u32) < 0x80 {
        1
    } else if (c as u32) < 0x800 {
        2
    } else if (c as u32) < 0x10000 {
        3
    } else {
        4
    }
}

/// The number of bytes a string takes in UTF-8 (`str::len`).
pub open spec fn utf8_len(s: Seq<char>) -> nat
    decreases s.len(),
{
    if s.len() == 0 {
        0
    } else {
        utf8_len(s.drop_last()) + char_utf8_len(s.last())
    }
}

/// The UTF-8 length of a string, saturated at `usize::MAX`.
pub fn byte_len(s: &Vec<char>) -> (r: usize)
    ensures
        r == (if utf8_len(s@) < usize::MAX {
            utf8_len(s@)
        } else {
            usize::MAX as nat
        }),
{
    let mut n: usize = 0;
    let mut i: usize = 0;
    while i < s.len()
        invariant
            i <= s@.len(),
            n == (if utf8_len(s@.subrange(0, i as int)) < usize::MAX {
                utf8_len(s@.subrange(0, i as int))
            } else {
                usize::MAX as nat
            }),
        decreases s@.len() - i,
    {
        let c = s[i] as u32;
        let k: usize = if c < 0x80 {
            1
        } else if c < 0x800 {
            2
        } else if c < 0x10000 {
            3
        } else {
            4
        };
        assert(s@.subrange(0, i + 1).drop_last() =~= s@.subrange(0, i as int));
        n = n.saturating_add(k);
        i = i + 1;
    }
    assert(s@.subrange(0, s@.len() as int) =~= s@);
    n
}

/// Whether a character is a move annotation (`+ # ! ?`).
pub open spec fn is_annotation(c: char) -> bool {
    c == '+' || c == '#' || c == '!' || c == '?'
}

/// A move text without its trailing annotation characters.
pub open spec fn strip_annotations(s: Seq<char>) -> Seq<char>
    decreases s.len(),
{
    if s.len() > 0 && is_annotation(s.last()) {
        strip_annotations(s.drop_last())
    } else {
        s
    }
}

/// Removes trailing annotation characters.
pub fn trim_annotations(s: &Vec<char>) -> (r: Vec<char>)
    ensures
        r@ == strip_annotations(s@),
{
    let mut n = s.len();
    assert(s@.subrange(0, n as int) =~= s@);
    while n > 0 && (s[n - 1] == '+' || s[n - 1] == '#' || s[n - 1] == '!' || s[n - 1] == '?')
        invariant
            n <= s@.len(),
            strip_annotations(s@) == strip_annotations(s@.subrange(0, n as int)),
        decreases n,
    {
        assert(s@.subrange(0, n as int).drop_last() =~= s@.subrange(0, n - 1));
        n = n - 1;
    }
    let mut r: Vec<char> = Vec::new();
    let mut i: usize = 0;
    while i < n
        invariant
            i <= n <= s@.len(),
            r@ == s@.subrange(0, i as int),
        decreases n - i,
    {
        r.push(s[i]);
        assert(r@ =~= s@.subrange(0, i + 1));
        i = i + 1;
    }
    r
}

/// A string without leading whitespace.
pub open spec fn trim_start(s: Seq<char>) -> Seq<char>
    decreases s.len(),
{
    if s.len() > 0 && spec_is_whitespace(s[0]) {
        trim_start(s.drop_first())
    } else {
        s
    }
}

/// A string without trailing whitespace.
pub open spec fn trim_end(s: Seq<char>) -> Seq<char>
    decreases s.len(),
{
    if s.len() > 0 && spec_is_whitespace(s.last()) {
        trim_end(s.drop_last())
    } else {
        s
    }
}

/// A string without leading and trailing whitespace (`str::trim`).
pub open spec fn trim(s: Seq<char>) -> Seq<char> {
    trim_end(trim_start(s))
}

/// Removes leading and trailing whitespace.
pub fn trim_chars(s: &Vec<char>) -> (r: Vec<char>)
    ensures
        r@ == trim(s@),
{
    let mut a: usize = 0;
    assert(s@.subrange(0, s@.len() as int) =~= s@);
    while a < s.len() && whitespace(s[a])
        invariant
            a <= s@.len(),
            trim_start(s@) == trim_start(s@.subrange(a as int, s@.len() as int)),
        decreases s@.len() - a,
    {
        assert(s@.subrange(a as int, s@.len() as int).drop_first() =~= s@.subrange(a + 1, s@.len() as int));
        a = a + 1;
    }
    let ghost front = s@.subrange(a as int, s@.len() as int);
    assert(trim_start(s@) == front);
    let mut b: usize = s.len();
    while b > a && whitespace(s[b - 1])
        invariant
            a <= b <= s@.len(),
            front == s@.subrange(a as int, s@.len() as int),
            trim_end(front) == trim_end(s@.subrange(a as int, b as int)),
        decreases b,
    {
        assert(s@.subrange(a as int, b as int).drop_last() =~= s@.subrange(a as int, b - 1));
        b = b - 1;
    }
    let mut r: Vec<char> = Vec::new();
    let mut i: usize = a;
    while i < b
        invariant
            a <= i <= b <= s@.len(),
            r@ == s@.subrange(a as int, i as int),
        decreases b - i,
    {
        r.push(s[i]);
        assert(r@ =~= s@.subrange(a as int, i + 1));
        i = i + 1;
    }
    r
}

/// The first position at or after `i` holding `c`.
pub open spec fn first_index(s: Seq<char>, c: char, i: int) -> Option<int>
    decreases s.len() - i,
{
    if i < 0 || i >= s.len() {
        None
    } else if s[i] == c {
        Some(i)
    } else {
        first_index(s, c, i + 1)
    }
}

/// The last position below `n` holding `c`.
pub open spec fn last_index(s: Seq<char>, c: char, n: int) -> Option<int>
    decreases n,
{
    if n <= 0 || n > s.len() {
        None
    } else if s[n - 1] == c {
        Some(n - 1)
    } else {
        last_index(s, c, n - 1)
    }
}

/// The text between the first and the last double quote of a header line.
pub open spec fn header_value(s: Seq<char>) -> Option<Seq<char>> {
    match (first_index(s, '"', 0), last_index(s, '"', s.len() as int)) {
        (Some(a), Some(b)) => if b > a {
            Some(s.subrange(a + 1, b))
        } else {
            None
        },
        _ => None,
    }
}

/// The value of a `[Tag "Value"]` header line.
pub fn extract_header_value(header_line: &str) -> (r: Option<String>)
    ensures
        r matches Some(v) ==> header_value(header_line@) == Some(v@),
        r is None ==> header_value(header_line@) is None,
{
    let s = chars_of(header_line);
    let n = s.len();
    let mut a: usize = 0;
    while a < n && s[a] != '"'
        invariant
            a <= n,
            n == s@.len(),
            first_index(s@, '"', 0) == first_index(s@, '"', a as int),
        decreases n - a,
    {
        a = a + 1;
    }
    if a == n {
        return None;
    }
    let mut b: usize = n;
    while b > 0 && s[b - 1] != '"'
        invariant
            b <= n,
            n == s@.len(),
            last_index(s@, '"', n as int) == last_index(s@, '"', b as int),
        decreases b,
    {
        b = b - 1;
    }
    if b == 0 {
        return None;
    }
    let end = b - 1;
    if end > a {
        let mut r = String::new();
        let mut i: usize = a + 1;
        while i < end
            invariant
                a + 1 <= i <= end,
                end < n,
                n == s@.len(),
                r@ == s@.subrange(a + 1, i as int),
            decreases end - i,
        {
            push_char(&mut r, s[i]);
            assert(r@ =~= s@.subrange(a + 1, i + 1));
            i = i + 1;
        }
        Some(r)
    } else {
        None
    }
}

/// The error type of std's I/O operations, carried through unread.
#[verifier::external_type_specification]
#[verifier::external_body]
pub struct ExIoError(std::io::Error);

/// Why reading a PGN file failed.
#[derive(Debug)]
pub enum PgnParseError {
    /// A move that is not legal in its position, or not understood.
    InvalidMove(String),
    /// A result header that is not `1-0`, `0-1`, `1/2-1/2` or `*`.
    InvalidResult(String),
    /// Reading the file failed.
    IoError(std::io::Error),
}

/// The result a `Result` header value names, if any: unfinished games (`*`)
/// count as draws.
pub open spec fn result_of(s: Seq<char>) -> Option<GameResult> {
    let t = trim(s);
    if t == "1-0"@ {
        Some(GameResult::White)
    } else if t == "0-1"@ {
        Some(GameResult::Black)
    } else if t == "1/2-1/2"@ {
        Some(GameResult::Draw)
    } else if t == "*"@ {
        Some(GameResult::Draw)
    } else {
        None
    }
}

/// Characters equal a given text.
pub fn chars_eq_str(a: &Vec<char>, t: &str) -> (r: bool)
    ensures
        r == (a@ == t@),
{
    let n = a.len();
    if n != t.unicode_len() {
        return false;
    }
    let mut i: usize = 0;
    while i < n
        invariant
            n == a@.len(),
            n == t@.len(),
            i <= n,
            forall|j: int| 0 <= j < i ==> a@[j] == t@[j],
        decreases n - i,
    {
        if a[i] != t.get_char(i) {
            return false;
        }
        i = i + 1;
    }
    assert(a@ =~= t@);
    true
}

/// Reads the value of a `Result` header.
pub fn parse_result(result_str: &str) -> (r: Result<GameResult, PgnParseError>)
    ensures
        r matches Ok(g) ==> result_of(result_str@) == Some(g),
        r matches Err(e) ==> (e matches PgnParseError::InvalidResult(s) && s@ == result_str@),
        r is Ok <==> result_of(result_str@) is Some,
{
    let cs = chars_of(result_str);
    let t = trim_chars(&cs);
    if chars_eq_str(&t, "1-0") {
        Ok(GameResult::White)
    } else if chars_eq_str(&t, "0-1") {
        Ok(GameResult::Black)
    } else if chars_eq_str(&t, "1/2-1/2") {
        Ok(GameResult::Draw)
    } else if chars_eq_str(&t, "*") {
        Ok(GameResult::Draw)
    } else {
        Err(PgnParseError::InvalidResult(string_of(result_str)))
    }
}

/// The text kept of a move section from position `i` on, given whether a
/// comment is open and how deep braces are nested: comments in braces (to
/// the matching brace) and after `;` (to the end of the line) are dropped,
/// and line breaks become spaces.
pub open spec fn clean_from(s: Seq<char>, i: int, in_comment: bool, depth: int) -> Seq<char>
    decreases s.len() - i,
{
    if i < 0 || i >= s.len() {
        Seq::empty()
    } else {
        let c = s[i];
        if c == '{' {
            clean_from(s, i + 1, true, depth + 1)
        } else if c == '}' {
            clean_from(s, i + 1, if depth - 1 == 0 { false } else { in_comment }, depth - 1)
        } else if c == ';' {
            clean_from(s, i + 1, true, depth)
        } else if c == '\n' {
            seq![' '] + clean_from(s, i + 1, false, depth)
        } else if !in_comment {
            seq![c] + clean_from(s, i + 1, in_comment, depth)
        } else {
            clean_from(s, i + 1, in_comment, depth)
        }
    }
}

/// Drops comments from a move section.
pub fn clean_moves_text(text: &str) -> (r: String)
    requires
        text@.len() < i32::MAX,
    ensures
        r@ == clean_from(text@, 0, false, 0),
{
    let cs = chars_of(text);
    let n = cs.len();
    let mut result = String::new();
    let mut in_comment = false;
    let mut brace_depth: i32 = 0;
    let mut i: usize = 0;
    while i < n
        invariant
            n == cs@.len(),
            cs@ == text@,
            n < i32::MAX,
            i <= n,
            -(i as int) <= brace_depth <= i,
            result@ + clean_from(cs@, i as int, in_comment, brace_depth as int) == clean_from(cs@, 0, false, 0),
        decreases n - i,
    {
        let ch = cs[i];
        let ghost before = result@;
        let ghost rest = clean_from(cs@, i + 1, in_comment, brace_depth as int);
        if ch == '{' {
            brace_depth = brace_depth + 1;
            in_comment = true;
        } else if ch == '}' {
            brace_depth = brace_depth - 1;
            if brace_depth == 0 {
                in_comment = false;
            }
        } else if ch == ';' {
            in_comment = true;
        } else if ch == '\n' {
            in_comment = false;
            push_char(&mut result, ' ');
            assert(before + clean_from(cs@, i as int, false, brace_depth as int) =~= result@ + clean_from(
                cs@,
                i + 1,
                false,
                brace_depth as int,
            ));
        } else if !in_comment {
            push_char(&mut result, ch);
            assert(before + clean_from(cs@, i as int, false, brace_depth as int) =~= result@ + clean_from(
                cs@,
                i + 1,
                false,
                brace_depth as int,
            ));
        }
        i = i + 1;
    }
    assert(result@ =~= result@ + clean_from(cs@, n as int, in_comment, brace_depth as int));
    result
}

/// Whether a token is a move number such as `12.` or `12...`.
pub open spec fn move_number(t: Seq<char>) -> bool {
    t.len() > 0 && '0' <= t[0] <= '9' && t.last() == '.'
}

/// Whether a token is a move number.
pub fn is_move_number(token: &Vec<char>) -> (r: bool)
    ensures
        r == move_number(token@),
{
    token.len() > 0 && '0' <= token[0] && token[0] <= '9' && token[token.len() - 1] == '.'
}

/// The upper-case letter of a piece kind, as algebraic notation writes it.
pub open spec fn piece_letter(p: Piece) -> char {
    match p {
        Piece::Pawn => 'P',
        Piece::Knight => 'N',
        Piece::Bishop => 'B',
        Piece::Rook => 'R',
        Piece::Queen => 'Q',
        Piece::King => 'K',
    }
}

fn piece_letter_exec(p: Piece) -> (r: char)
    ensures
        r == piece_letter(p),
{
    match p {
        Piece::Pawn => 'P',
        Piece::Knight => 'N',
        Piece::Bishop => 'B',
        Piece::Rook => 'R',
        Piece::Queen => 'Q',
        Piece::King => 'K',
    }
}

/// A text without its `x` characters.
pub open spec fn without_x(s: Seq<char>) -> Seq<char>
    decreases s.len(),
{
    if s.len() == 0 {
        s
    } else if s.last() == 'x' {
        without_x(s.drop_last())
    } else {
        without_x(s.drop_last()).push(s.last())
    }
}

/// Whether the origin written between a piece letter and the target square
/// (capture marks removed) fits the source square: nothing, its file, its
/// rank, or the square itself (longer origins are not checked).
pub open spec fn origin_fits(origin: Seq<char>, from_name: Seq<char>) -> bool {
    origin.len() > 0 ==> if utf8_len(origin) == 1 {
        origin[0] == from_name[0] || origin[0] == from_name[1]
    } else if utf8_len(origin) == 2 {
        origin == from_name
    } else {
        true
    }
}

/// Notation for a piece other than a pawn (`Nf3`, `Bxc4`, `Raxb1`): the
/// piece's letter first, the target square last, a capture mark exactly
/// when the move captures, and an origin that fits the source square.
pub open spec fn piece_san(letter: char, from_name: Seq<char>, to_name: Seq<char>, captures: bool, clean: Seq<char>) -> bool {
    &&& clean.len() > 0 && clean[0] == letter
    &&& clean.len() >= 2 && clean.subrange(clean.len() - 2, clean.len() as int) == to_name
    &&& clean.contains('x') == captures
    &&& utf8_len(clean) > 3 ==> origin_fits(without_x(clean.subrange(1, clean.len() - 2)), from_name)
}

/// Notation for a promotion (`d8=Q`, `axb8=N`): the target square, or the
/// source file, a capture mark and the target square, then `=` and the
/// letter of the piece promoted to.
pub open spec fn promotion_san(file: char, to_name: Seq<char>, promotion: Option<Piece>, clean: Seq<char>) -> bool {
    match promotion {
        Some(q) => {
            ||| clean == to_name + seq!['=', piece_letter(q)]
            ||| (clean.contains('x') && clean == seq![file, 'x'] + to_name + seq!['=', piece_letter(q)])
        },
        None => false,
    }
}

/// Notation for a pawn move: a push by its target (`e4`), a capture by the
/// source file, a capture mark and the target (`exd5`), or a promotion. The
/// first two forms are told apart by their length in bytes (as `str::len`
/// counts it) and read without annotations removed.
pub open spec fn pawn_san(file: char, to_name: Seq<char>, promotion: Option<Piece>, algebraic: Seq<char>, clean: Seq<char>) -> bool {
    if utf8_len(algebraic) == 2 {
        algebraic == to_name
    } else if utf8_len(algebraic) == 4 && algebraic.contains('x') {
        algebraic == seq![file, 'x'] + to_name
    } else if clean.contains('=') {
        promotion_san(file, to_name, promotion, clean)
    } else {
        false
    }
}

/// Whether algebraic notation `algebraic` names move `m` on board `b`, once
/// check marks and annotations are stripped from its end: by the rules of
/// `pawn_san` when a pawn stands on the source square, of `piece_san` for
/// another piece, and never from an empty square.
pub open spec fn san_matches(b: Board, m: u16, algebraic: Seq<char>) -> bool {
    let clean = strip_annotations(algebraic);
    let from_name = square_name(move_from(m) as int);
    let to_name = square_name(move_to(m) as int);
    match b[move_from(m) as int] {
        None => false,
        Some((Piece::Pawn, _)) => pawn_san(from_name[0], to_name, move_promotion(m), algebraic, clean),
        Some((p, _)) => piece_san(piece_letter(p), from_name, to_name, b[move_to(m) as int] is Some, clean),
    }
}

/// Whether characters contain `c`.
fn chars_contain(s: &Vec<char>, c: char) -> (r: bool)
    ensures
        r == s@.contains(c),
{
    let mut i: usize = 0;
    while i < s.len()
        invariant
            i <= s@.len(),
            forall|j: int| 0 <= j < i ==> s@[j] != c,
        decreases s@.len() - i,
    {
        if s[i] == c {
            assert(s@[i as int] == c);
            return true;
        }
        i = i + 1;
    }
    false
}

/// Characters equal other characters.
fn chars_equal(a: &Vec<char>, b: &Vec<char>) -> (r: bool)
    ensures
        r == (a@ == b@),
{
    if a.len() != b.len() {
        return false;
    }
    let mut i: usize = 0;
    while i < a.len()
        invariant
            a@.len() == b@.len(),
            i <= a@.len(),
            forall|j: int| 0 <= j < i ==> a@[j] == b@[j],
        decreases a@.len() - i,
    {
        if a[i] != b[i] {
            return false;
        }
        i = i + 1;
    }
    assert(a@ =~= b@);
    true
}

/// The characters from `start` to `end` without `x`.
fn middle_without_x(s: &Vec<char>, start: usize, end: usize) -> (r: Vec<char>)
    requires
        start <= end <= s@.len(),
    ensures
        r@ == without_x(s@.subrange(start as int, end as int)),
{
    let mut r: Vec<char> = Vec::new();
    let mut i: usize = start;
    assert(s@.subrange(start as int, start as int) =~= Seq::<char>::empty());
    while i < end
        invariant
            start <= i <= end <= s@.len(),
            r@ == without_x(s@.subrange(start as int, i as int)),
        decreases end - i,
    {
        assert(s@.subrange(start as int, i + 1).drop_last() =~= s@.subrange(start as int, i as int));
        if s[i] != 'x' {
            r.push(s[i]);
        }
        i = i + 1;
    }
    r
}

/// Whether algebraic notation names a move in a game's position.
pub fn matches_algebraic_notation(game: &Game, board_move: BoardMove, algebraic: &str) -> (r: bool)
    ensures
        r == san_matches(game.state().board, board_move, algebraic@),
{
    let a = chars_of(algebraic);
    let clean = trim_annotations(&a);
    proof {
        lemma_strip_shorter(a@);
    }
    let from = get_from(board_move);
    let to = get_to(board_move);
    let to_name = chars_of(crate::square::unparse(to).as_str());
    let from_name = chars_of(crate::square::unparse(from).as_str());
    let file = from_name[0];
    match game.piece_at(from) {
        None => false,
        Some((Piece::Pawn, _)) => {
            let alen = byte_len(&a);
            if alen == 2 {
                chars_equal(&a, &to_name)
            } else if alen == 4 && chars_contain(&a, 'x') {
                let expected = vec![file, 'x', to_name[0], to_name[1]];
                assert(expected@ =~= seq![file, 'x'] + to_name@);
                chars_equal(&a, &expected)
            } else if chars_contain(&clean, '=') {
                match get_promotion(board_move) {
                    Some(q) => {
                        let pc = piece_letter_exec(q);
                        let plain = vec![to_name[0], to_name[1], '=', pc];
                        assert(plain@ =~= to_name@ + seq!['=', piece_letter(q)]);
                        if chars_equal(&clean, &plain) {
                            return true;
                        }
                        if chars_contain(&clean, 'x') {
                            let capture = vec![file, 'x', to_name[0], to_name[1], '=', pc];
                            assert(capture@ =~= seq![file, 'x'] + to_name@ + seq!['=', piece_letter(q)]);
                            if chars_equal(&clean, &capture) {
                                return true;
                            }
                        }
                        false
                    },
                    None => false,
                }
            } else {
                false
            }
        },
        Some((p, _)) => {
            let pc = piece_letter_exec(p);
            let n = clean.len();
            if !(n > 0 && clean[0] == pc) {
                return false;
            }
            if !(n >= 2 && clean[n - 2] == to_name[0] && clean[n - 1] == to_name[1]) {
                assert(n >= 2 ==> clean@.subrange(n - 2, n as int) != to_name@ || (clean@[n - 2] == to_name@[0]
                    && clean@[n - 1] == to_name@[1])) by {
                    if n >= 2 && clean@.subrange(n - 2, n as int) == to_name@ {
                        assert(clean@.subrange(n - 2, n as int)[0] == clean@[n - 2]);
                        assert(clean@.subrange(n - 2, n as int)[1] == clean@[n - 1]);
                    }
                }
                return false;
            }
            assert(clean@.subrange(n - 2, n as int) =~= to_name@);
            let has_capture = chars_contain(&clean, 'x');
            let is_capture = game.piece_at(to).is_some();
            if has_capture != is_capture {
                return false;
            }
            if byte_len(&clean) > 3 {
                if n < 3 {
                    assert(to_name@[0] != piece_letter(p));
                    assert(false);
                }
                let middle = middle_without_x(&clean, 1, n - 2);
                if middle.len() > 0 {
                    proof {
                        lemma_without_x_shorter(clean@.subrange(1, n - 2));
                    }
                    let mlen = byte_len(&middle);
                    if mlen == 1 {
                        let d = middle[0];
                        if d != file && d != from_name[1] {
                            return false;
                        }
                    } else if mlen == 2 {
                        if !chars_equal(&middle, &from_name) {
                            return false;
                        }
                    }
                }
            }
            true
        },
    }
}

/// Stripping annotations does not lengthen a text.
pub proof fn lemma_strip_shorter(s: Seq<char>)
    ensures
        strip_annotations(s).len() <= s.len(),
    decreases s.len(),
{
    if s.len() > 0 && is_annotation(s.last()) {
        lemma_strip_shorter(s.drop_last());
    }
}

/// Dropping `x` characters does not lengthen a text.
pub proof fn lemma_without_x_shorter(s: Seq<char>)
    ensures
        without_x(s).len() <= s.len(),
    decreases s.len(),
{
    if s.len() > 0 {
        lemma_without_x_shorter(s.drop_last());
    }
}

/// The first of the moves from position `i` on that the notation names.
pub open spec fn first_matching(b: Board, ms: Seq<u16>, s: Seq<char>, i: int) -> Option<u16>
    decreases ms.len() - i,
{
    if i < 0 || i >= ms.len() {
        None
    } else if san_matches(b, ms[i], s) {
        Some(ms[i])
    } else {
        first_matching(b, ms, s, i + 1)
    }
}

/// The move that algebraic notation names in a position: castling by
/// `O-O` or `0-0` (king side) and `O-O-O` or `0-0-0` (queen side) for the
/// side to move, otherwise the first legal move that the notation matches.
pub open spec fn san_move(st: State, algebraic: Seq<char>) -> Option<u16> {
    let clean = strip_annotations(algebraic);
    let white = st.side == Color::White;
    if clean == "O-O"@ || clean == "0-0"@ {
        Some(if white { encode_move(4, 6, None) } else { encode_move(60, 62, None) })
    } else if clean == "O-O-O"@ || clean == "0-0-0"@ {
        Some(if white { encode_move(4, 2, None) } else { encode_move(60, 58, None) })
    } else {
        first_matching(st.board, legal_moves(st), clean, 0)
    }
}

/// Finds the move that algebraic notation names in a game's position.
pub fn parse_algebraic_move(game: &Game, algebraic: &str) -> (r: Option<BoardMove>)
    requires
        game.wf(),
        king_square(game.state().board, game.state().side) < 64,
    ensures
        r == san_move(game.state(), algebraic@),
{
    let a = chars_of(algebraic);
    let clean_move = trim_annotations(&a);
    let white = game.side() == Color::White;
    if chars_eq_str(&clean_move, "O-O") || chars_eq_str(&clean_move, "0-0") {
        return if white {
            Some(crate::board_move::regular(crate::square::E1, crate::square::G1))
        } else {
            Some(crate::board_move::regular(crate::square::E8, crate::square::G8))
        };
    }
    if chars_eq_str(&clean_move, "O-O-O") || chars_eq_str(&clean_move, "0-0-0") {
        return if white {
            Some(crate::board_move::regular(crate::square::E1, crate::square::C1))
        } else {
            Some(crate::board_move::regular(crate::square::E8, crate::square::C8))
        };
    }
    let clean_text = string_from(&clean_move);
    assert(san_move(game.state(), algebraic@) == first_matching(game.state().board, legal_moves(game.state()), clean_text@, 0));
    let (move_count, moves) = game.get_moves();
    let mut i: usize = 0;
    while i < move_count
        invariant
            i <= move_count,
            move_count == moves@.len(),
            moves@ == legal_moves(game.state()),
            clean_text@ == strip_annotations(algebraic@),
            san_move(game.state(), algebraic@) == first_matching(game.state().board, legal_moves(game.state()), clean_text@, 0),
            first_matching(game.state().board, moves@, clean_text@, 0) == first_matching(
                game.state().board,
                moves@,
                clean_text@,
                i as int,
            ),
        decreases move_count - i,
    {
        let board_move = moves[i];
        if matches_algebraic_notation(game, board_move, clean_text.as_str()) {
            return Some(board_move);
        }
        i = i + 1;
    }
    None
}

/// Whether a token states the game's result.
pub open spec fn result_token(t: Seq<char>) -> bool {
    t == "1-0"@ || t == "0-1"@ || t == "1/2-1/2"@ || t == "*"@
}

/// Tokens without move numbers.
pub open spec fn without_move_numbers(ts: Seq<Seq<char>>) -> Seq<Seq<char>>
    decreases ts.len(),
{
    if ts.len() == 0 {
        ts
    } else if move_number(ts.last()) {
        without_move_numbers(ts.drop_last())
    } else {
        without_move_numbers(ts.drop_last()).push(ts.last())
    }
}

/// The move tokens of a move section: the words left after comments are
/// dropped, without move numbers.
pub open spec fn move_tokens(text: Seq<char>) -> Seq<Seq<char>> {
    without_move_numbers(tokens(clean_from(text, 0, false, 0)))
}

/// The moves the tokens from position `i` on name, played from `st`, up to
/// a result token or the end; the first token that names no legal move is
/// the error.
pub open spec fn play_tokens(st: State, ts: Seq<Seq<char>>, i: int) -> Result<Seq<u16>, Seq<char>>
    decreases ts.len() - i,
{
    if i < 0 || i >= ts.len() || result_token(ts[i]) {
        Ok(Seq::empty())
    } else {
        match san_move(st, ts[i]) {
            Some(m) => if legal(st, m) {
                match play_tokens(state_after(st, m), ts, i + 1) {
                    Ok(rest) => Ok(seq![m] + rest),
                    Err(e) => Err(e),
                }
            } else {
                Err(ts[i])
            },
            None => Err(ts[i]),
        }
    }
}

/// Moves played before a continuation.
pub open spec fn prepend(acc: Seq<u16>, r: Result<Seq<u16>, Seq<char>>) -> Result<Seq<u16>, Seq<char>> {
    match r {
        Ok(rest) => Ok(acc + rest),
        Err(e) => Err(e),
    }
}

/// Reads the moves of a game's move section, playing them from the
/// starting position.
pub fn parse_moves(moves_text: &str) -> (r: Result<Vec<BoardMove>, PgnParseError>)
    requires
        moves_text@.len() < i32::MAX,
    ensures
        match r {
            Ok(v) => play_tokens(start_state(), move_tokens(moves_text@), 0) == Ok::<Seq<u16>, Seq<char>>(v@),
            Err(PgnParseError::InvalidMove(t)) => play_tokens(start_state(), move_tokens(moves_text@), 0)
                == Err::<Seq<u16>, Seq<char>>(t@),
            Err(_) => false,
        },
{
    let mut moves: Vec<BoardMove> = Vec::new();
    let mut game = Game::new(None);
    proof {
        crate::consistency::lemma_start_consistent();
    }
    let cleaned = clean_moves_text(moves_text);
    let cs = chars_of(cleaned.as_str());
    let words = split_whitespace(&cs);
    let mut toks: Vec<Vec<char>> = Vec::new();
    let mut k: usize = 0;
    let ghost all = tokens(cleaned@);
    while k < words.len()
        invariant
            k <= words@.len(),
            words@.len() == all.len(),
            forall|j: int| 0 <= j < words@.len() ==> (#[trigger] words@[j])@ == all[j],
            toks@.len() == without_move_numbers(all.subrange(0, k as int)).len(),
            forall|j: int|
                0 <= j < toks@.len() ==> (#[trigger] toks@[j])@ == without_move_numbers(
                    all.subrange(0, k as int),
                )[j],
        decreases words@.len() - k,
    {
        assert(all.subrange(0, k + 1).drop_last() =~= all.subrange(0, k as int));
        assert(all.subrange(0, k + 1).last() == words@[k as int]@);
        if !is_move_number(&words[k]) {
            let w = words[k].clone();
            assert(w@ == words@[k as int]@);
            toks.push(w);
        }
        k = k + 1;
    }
    assert(all.subrange(0, words@.len() as int) =~= all);
    let ghost ts = move_tokens(moves_text@);
    assert(ts.len() == toks@.len());
    let n = toks.len();
    let mut i: usize = 0;
    while i < n
        invariant
            n == toks@.len(),
            ts == move_tokens(moves_text@),
            ts.len() == n,
            forall|j: int| 0 <= j < n ==> (#[trigger] toks@[j])@ == ts[j],
            i <= n,
            game.wf(),
            consistent(game.state()),
            play_tokens(start_state(), ts, 0) == prepend(moves@, play_tokens(game.state(), ts, i as int)),
        decreases n - i,
    {
        let token = &toks[i];
        assert(token@ == ts[i as int]);
        if chars_eq_str(token, "1-0") || chars_eq_str(token, "0-1") || chars_eq_str(token, "1/2-1/2")
            || chars_eq_str(token, "*") {
            assert(moves@ + Seq::<u16>::empty() =~= moves@);
            return Ok(moves);
        }
        let text = string_from(token);
        proof {
            crate::rules::lemma_king_square_holds(game.state().board, game.state().side, 0);
        }
        match parse_algebraic_move(&game, text.as_str()) {
            Some(board_move) => {
                let ghost st = game.state();
                if !game.is_legal(board_move) {
                    return Err(PgnParseError::InvalidMove(text));
                }
                proof {
                    crate::rules::lemma_legal_makeable(st, board_move);
                    crate::consistency::lemma_legal_keeps_consistent(st, board_move);
                    assert(play_tokens(st, ts, i as int) == prepend(seq![board_move], play_tokens(state_after(st, board_move), ts, i + 1)));
                    assert(moves@.push(board_move) =~= moves@ + seq![board_move]);
                    assert forall|rest: Seq<u16>| #![auto] (moves@ + seq![board_move]) + rest =~= moves@ + (seq![board_move] + rest) by {}
                }
                moves.push(board_move);
                game.make_move(board_move);
            },
            None => {
                return Err(PgnParseError::InvalidMove(text));
            },
        }
        i = i + 1;
    }
    assert(moves@ + Seq::<u16>::empty() =~= moves@);
    Ok(moves)
}

/// A game read from a PGN file.
#[derive(Debug)]
pub struct PgnGame {
    pub moves: Vec<BoardMove>,
    pub result: GameResult,
    /// The mean of the two players' ratings, when both are given.
    pub average_elo: Option<u32>,
}

/// A game as plain values: moves, result and average rating.
pub type GameView = (Seq<u16>, GameResult, Option<u32>);

/// A read error as plain values.
pub enum PgnErrorView {
    InvalidMove(Seq<char>),
    InvalidResult(Seq<char>),
}

/// What the reader holds between lines: the move text of the current game,
/// its result and ratings from the headers, and the games read so far.
pub struct PgnState {
    pub moves_text: Seq<char>,
    pub result: Option<GameResult>,
    pub white_elo: Option<u32>,
    pub black_elo: Option<u32>,
    pub games: Seq<GameView>,
}

/// Whether `s` starts with `t`.
pub open spec fn starts_with(s: Seq<char>, t: Seq<char>) -> bool {
    t.len() <= s.len() && s.subrange(0, t.len() as int) == t
}

/// Whether `t` occurs in `s`.
pub open spec fn contains_text(s: Seq<char>, t: Seq<char>) -> bool {
    exists|k: int| 0 <= k && k + t.len() <= s.len() && #[trigger] s.subrange(k, k + t.len()) == t
}

/// A rating as `str::parse::<u32>` reads it.
pub open spec fn elo_value(t: Seq<char>) -> Option<u32> {
    match crate::fen::parse_unsigned(t, u32::MAX as int) {
        Some(v) => Some(v as u32),
        None => None,
    }
}

/// The mean of two ratings, when both are known.
pub open spec fn average_of(w: Option<u32>, b: Option<u32>) -> Option<u32> {
    match (w, b) {
        (Some(x), Some(y)) => Some(((x + y) / 2) as u32),
        _ => None,
    }
}

/// The reader's state after a header line.
pub open spec fn header_step(st: PgnState, line: Seq<char>) -> Result<PgnState, PgnErrorView> {
    let r1: Result<PgnState, PgnErrorView> = if starts_with(line, "[Result "@) {
        match header_value(line) {
            Some(v) => match result_of(v) {
                Some(g) => Ok(PgnState { result: Some(g), ..st }),
                None => Err(PgnErrorView::InvalidResult(v)),
            },
            None => Ok(st),
        }
    } else {
        Ok(st)
    };
    match r1 {
        Err(e) => Err(e),
        Ok(s1) => {
            let s2 = if starts_with(line, "[WhiteElo "@) {
                match header_value(line) {
                    Some(v) => PgnState { white_elo: elo_value(v), ..s1 },
                    None => s1,
                }
            } else {
                s1
            };
            Ok(
                if starts_with(line, "[BlackElo "@) {
                    match header_value(line) {
                        Some(v) => PgnState { black_elo: elo_value(v), ..s2 },
                        None => s2,
                    }
                } else {
                    s2
                },
            )
        },
    }
}

/// Whether a move line ends a game: it holds a result.
pub open spec fn ends_game(line: Seq<char>) -> bool {
    contains_text(line, "1-0"@) || contains_text(line, "0-1"@) || contains_text(line, "1/2-1/2"@)
        || contains_text(line, "*"@)
}

/// The reader's state after one line (already trimmed): empty lines are
/// skipped, header lines update the result and ratings, and move lines add
/// to the move text; a move line with a result ends the game, which is kept
/// when a result header was read.
pub open spec fn pgn_step(st: PgnState, line: Seq<char>) -> Result<PgnState, PgnErrorView> {
    if line.len() == 0 {
        Ok(st)
    } else if line[0] == '[' {
        header_step(st, line)
    } else {
        let text = st.moves_text + seq![' '] + line;
        if ends_game(line) {
            let reset = PgnState {
                moves_text: Seq::empty(),
                result: None,
                white_elo: None,
                black_elo: None,
                games: st.games,
            };
            match st.result {
                Some(g) => match play_tokens(start_state(), move_tokens(text), 0) {
                    Ok(ms) => Ok(
                        PgnState {
                            games: st.games.push((ms, g, average_of(st.white_elo, st.black_elo))),
                            ..reset
                        },
                    ),
                    Err(t) => Err(PgnErrorView::InvalidMove(t)),
                },
                None => Ok(reset),
            }
        } else {
            Ok(PgnState { moves_text: text, ..st })
        }
    }
}

/// The games read from lines `i` on.
pub open spec fn pgn_scan(lines: Seq<Seq<char>>, i: int, st: PgnState) -> Result<Seq<GameView>, PgnErrorView>
    decreases lines.len() - i,
{
    if i < 0 || i >= lines.len() {
        Ok(st.games)
    } else {
        match pgn_step(st, trim(lines[i])) {
            Ok(s2) => pgn_scan(lines, i + 1, s2),
            Err(e) => Err(e),
        }
    }
}

/// The reader's state before the first line.
pub open spec fn pgn_start() -> PgnState {
    PgnState { moves_text: Seq::empty(), result: None, white_elo: None, black_elo: None, games: Seq::empty() }
}

/// The total length of lines, counting one separator each.
pub open spec fn lines_len(lines: Seq<Seq<char>>) -> nat
    decreases lines.len(),
{
    if lines.len() == 0 {
        0
    } else {
        lines_len(lines.drop_last()) + lines.last().len() + 1
    }
}

/// A game as plain values.
pub open spec fn game_view(g: PgnGame) -> GameView {
    (g.moves@, g.result, g.average_elo)
}

/// Whether characters start with a text.
fn chars_start_with(a: &Vec<char>, t: &str) -> (r: bool)
    ensures
        r == starts_with(a@, t@),
{
    let n = t.unicode_len();
    if n > a.len() {
        return false;
    }
    let mut i: usize = 0;
    while i < n
        invariant
            n == t@.len(),
            n <= a@.len(),
            i <= n,
            forall|j: int| 0 <= j < i ==> a@[j] == t@[j],
        decreases n - i,
    {
        if a[i] != t.get_char(i) {
            assert(a@.subrange(0, n as int)[i as int] != t@[i as int]);
            return false;
        }
        i = i + 1;
    }
    assert(a@.subrange(0, n as int) =~= t@);
    true
}

/// Whether characters contain a text.
fn chars_contain_text(a: &Vec<char>, t: &str) -> (r: bool)
    ensures
        r == contains_text(a@, t@),
{
    let n = t.unicode_len();
    let m = a.len();
    if n > m {
        assert forall|k: int| 0 <= k && k + t@.len() <= a@.len() implies #[trigger] a@.subrange(k, k + t@.len()) != t@ by {}
        return false;
    }
    let mut k: usize = 0;
    while k <= m - n
        invariant
            n == t@.len(),
            m == a@.len(),
            n <= m,
            k <= m - n + 1,
            forall|q: int| 0 <= q < k ==> #[trigger] a@.subrange(q, q + n) != t@,
        decreases m - k,
    {
        let mut i: usize = 0;
        let mut same = true;
        while i < n
            invariant
                n == t@.len(),
                m == a@.len(),
                k + n <= m,
                i <= n,
                same == (forall|j: int| 0 <= j < i ==> a@[k + j] == t@[j]),
            decreases n - i,
        {
            if a[k + i] != t.get_char(i) {
                same = false;
            }
            i = i + 1;
        }
        if same {
            assert(a@.subrange(k as int, k + n) =~= t@);
            return true;
        }
        assert(a@.subrange(k as int, k + n)[0] == a@[k as int] || n == 0);
        assert(a@.subrange(k as int, k + n) != t@) by {
            let w = choose|j: int| 0 <= j < n && a@[k + j] != t@[j];
            assert(a@.subrange(k as int, k + n)[w] == a@[k + w]);
        }
        k = k + 1;
    }
    assert forall|q: int| 0 <= q && q + t@.len() <= a@.len() implies #[trigger] a@.subrange(q, q + t@.len()) != t@ by {
        assert(q < k);
    }
    false
}

/// Trimming does not lengthen a text.
pub proof fn lemma_trim_shorter(s: Seq<char>)
    ensures
        trim(s).len() <= s.len(),
{
    lemma_trim_start_shorter(s);
    lemma_trim_end_shorter(trim_start(s));
}

proof fn lemma_trim_start_shorter(s: Seq<char>)
    ensures
        trim_start(s).len() <= s.len(),
    decreases s.len(),
{
    if s.len() > 0 && spec_is_whitespace(s[0]) {
        lemma_trim_start_shorter(s.drop_first());
    }
}

proof fn lemma_trim_end_shorter(s: Seq<char>)
    ensures
        trim_end(s).len() <= s.len(),
    decreases s.len(),
{
    if s.len() > 0 && spec_is_whitespace(s.last()) {
        lemma_trim_end_shorter(s.drop_last());
    }
}

/// The total length of a prefix of the lines grows line by line and stays
/// within the total.
proof fn lemma_lines_len_prefix(lines: Seq<Seq<char>>, i: int)
    requires
        0 <= i < lines.len(),
    ensures
        lines_len(lines.take(i + 1)) == lines_len(lines.take(i)) + lines[i].len() + 1,
        lines_len(lines.take(i + 1)) <= lines_len(lines),
    decreases lines.len() - i,
{
    assert(lines.take(i + 1).drop_last() =~= lines.take(i));
    if i + 1 < lines.len() {
        lemma_lines_len_prefix(lines, i + 1);
    } else {
        assert(lines.take(i + 1) =~= lines);
    }
}

/// The texts of a list of strings.
pub open spec fn line_texts(v: Seq<String>) -> Seq<Seq<char>> {
    v.map_values(|s: String| s@)
}

/// Reads a rating the way `str::parse::<u32>` does.
fn parse_elo(t: &str) -> (r: Option<u32>)
    ensures
        r == elo_value(t@),
{
    let cs = chars_of(t);
    match crate::fen::parse_unsigned_exec(cs.as_slice(), u32::MAX as u64) {
        Some(v) => Some(v as u32),
        None => None,
    }
}

/// Reads the games of a PGN file given as its lines; only games that have
/// a result header are kept.
pub fn parse_pgn_lines(lines: &Vec<String>) -> (r: Result<Vec<PgnGame>, PgnParseError>)
    requires
        lines_len(line_texts(lines@)) < i32::MAX,
    ensures
        match r {
            Ok(gs) => pgn_scan(line_texts(lines@), 0, pgn_start()) == Ok::<Seq<GameView>, PgnErrorView>(
                gs@.map_values(|g: PgnGame| game_view(g)),
            ),
            Err(PgnParseError::InvalidMove(t)) => pgn_scan(line_texts(lines@), 0, pgn_start()) == Err::<
                Seq<GameView>,
                PgnErrorView,
            >(PgnErrorView::InvalidMove(t@)),
            Err(PgnParseError::InvalidResult(t)) => pgn_scan(line_texts(lines@), 0, pgn_start()) == Err::<
                Seq<GameView>,
                PgnErrorView,
            >(PgnErrorView::InvalidResult(t@)),
            Err(PgnParseError::IoError(_)) => false,
        },
{
    let ghost ls = line_texts(lines@);
    let mut games: Vec<PgnGame> = Vec::new();
    let mut current_game_moves = String::new();
    let mut current_game_result: Option<GameResult> = None;
    let mut white_elo: Option<u32> = None;
    let mut black_elo: Option<u32> = None;
    let n = lines.len();
    let mut i: usize = 0;
    assert(games@.map_values(|g: PgnGame| game_view(g)) =~= Seq::<GameView>::empty());
    assert(current_game_moves@ =~= Seq::<char>::empty());
    while i < n
        invariant
            n == lines@.len(),
            ls == line_texts(lines@),
            ls.len() == n,
            lines_len(ls) < i32::MAX,
            i <= n,
            current_game_moves@.len() <= lines_len(ls.take(i as int)),
            pgn_scan(ls, 0, pgn_start()) == pgn_scan(
                ls,
                i as int,
                PgnState {
                    moves_text: current_game_moves@,
                    result: current_game_result,
                    white_elo: white_elo,
                    black_elo: black_elo,
                    games: games@.map_values(|g: PgnGame| game_view(g)),
                },
            ),
        decreases n - i,
    {
        let ghost st = PgnState {
            moves_text: current_game_moves@,
            result: current_game_result,
            white_elo: white_elo,
            black_elo: black_elo,
            games: games@.map_values(|g: PgnGame| game_view(g)),
        };
        proof {
            lemma_lines_len_prefix(ls, i as int);
            lemma_trim_shorter(ls[i as int]);
        }
        let raw = chars_of(lines[i].as_str());
        let line = trim_chars(&raw);
        assert(line@ == trim(ls[i as int]));
        if line.len() == 0 {
            i = i + 1;
            continue;
        }
        if line[0] == '[' {
            let text = string_from(&line);
            if chars_start_with(&line, "[Result ") {
                if let Some(result_str) = extract_header_value(text.as_str()) {
                    match parse_result(result_str.as_str()) {
                        Ok(g) => {
                            current_game_result = Some(g);
                        },
                        Err(e) => {
                            return Err(e);
                        },
                    }
                }
            }
            if chars_start_with(&line, "[WhiteElo ") {
                if let Some(elo_str) = extract_header_value(text.as_str()) {
                    white_elo = parse_elo(elo_str.as_str());
                }
            }
            if chars_start_with(&line, "[BlackElo ") {
                if let Some(elo_str) = extract_header_value(text.as_str()) {
                    black_elo = parse_elo(elo_str.as_str());
                }
            }
            i = i + 1;
            continue;
        }
        push_char(&mut current_game_moves, ' ');
        let line_text = string_from(&line);
        crate::text::push_str(&mut current_game_moves, line_text.as_str());
        assert(current_game_moves@ == st.moves_text + seq![' '] + line@);
        if chars_contain_text(&line, "1-0") || chars_contain_text(&line, "0-1") || chars_contain_text(
            &line,
            "1/2-1/2",
        ) || chars_contain_text(&line, "*") {
            if let Some(result) = current_game_result {
                match parse_moves(current_game_moves.as_str()) {
                    Ok(moves) => {
                        let average_elo = match (white_elo, black_elo) {
                            (Some(w), Some(b)) => Some(((w as u64 + b as u64) / 2) as u32),
                            _ => None,
                        };
                        let ghost before = games@;
                        let game = PgnGame { moves, result, average_elo };
                        games.push(game);
                        assert(games@.map_values(|g: PgnGame| game_view(g)) =~= before.map_values(
                            |g: PgnGame| game_view(g),
                        ).push(game_view(game)));
                    },
                    Err(e) => {
                        return Err(e);
                    },
                }
            }
            current_game_moves = String::new();
            current_game_result = None;
            white_elo = None;
            black_elo = None;
            assert(current_game_moves@ =~= Seq::<char>::empty());
        }
        i = i + 1;
    }
    Ok(games)
}


/// The UTF-8 length of ASCII text is its number of characters.
proof fn lemma_ascii_utf8_len(s: Seq<char>)
    requires
        forall|i: int| 0 <= i < s.len() ==> (#[trigger] s[i] as u32) < 0x80,
    ensures
        utf8_len(s) == s.len(),
    decreases s.len(),
{
    if s.len() > 0 {
        let p = s.drop_last();
        assert forall|i: int| 0 <= i < p.len() implies (#[trigger] p[i] as u32) < 0x80 by {
            assert(p[i] == s[i]);
        }
        lemma_ascii_utf8_len(p);
    }
}

/// Removing capture marks keeps text that has none, and drops a trailing one.
proof fn lemma_without_x_plain(s: Seq<char>, tail: Seq<char>)
    requires
        forall|i: int| 0 <= i < s.len() ==> #[trigger] s[i] != 'x',
        tail == Seq::<char>::empty() || tail == seq!['x'],
    ensures
        without_x(s + tail) == s,
    decreases s.len() + tail.len(),
{
    if tail.len() > 0 {
        assert((s + tail).drop_last() =~= s + Seq::<char>::empty());
        lemma_without_x_plain(s, Seq::<char>::empty());
    } else if s.len() > 0 {
        let p = s.drop_last();
        assert forall|i: int| 0 <= i < p.len() implies #[trigger] p[i] != 'x' by {
            assert(p[i] == s[i]);
        }
        lemma_without_x_plain(p, Seq::<char>::empty());
        assert(s + tail =~= s);
        assert(p + Seq::<char>::empty() =~= p);
        assert(s.drop_last() =~= p);
    } else {
        assert(s + tail =~= s);
    }
}

/// Standard notation for a move of a piece other than a pawn is recognised:
/// the piece's letter, then as origin nothing, the source file, the source
/// rank or the source square, then a capture mark exactly when the target
/// square is occupied, then the target square.
pub proof fn lemma_piece_san_recognised(b: Board, m: u16, origin: Seq<char>)
    requires
        0 <= move_from(m) < 64,
        0 <= move_to(m) < 64,
        b[move_from(m) as int] is Some,
        b[move_from(m) as int].unwrap().0 != Piece::Pawn,
        ({
            let from_name = square_name(move_from(m) as int);
            ||| origin == Seq::<char>::empty()
            ||| origin == seq![from_name[0]]
            ||| origin == seq![from_name[1]]
            ||| origin == from_name
        }),
    ensures
        san_matches(
            b,
            m,
            seq![piece_letter(b[move_from(m) as int].unwrap().0)] + origin + (if b[move_to(m) as int] is Some {
                seq!['x']
            } else {
                Seq::<char>::empty()
            }) + square_name(move_to(m) as int),
        ),
{
    let p = b[move_from(m) as int].unwrap().0;
    let from_name = square_name(move_from(m) as int);
    let to_name = square_name(move_to(m) as int);
    let cap = if b[move_to(m) as int] is Some {
        seq!['x']
    } else {
        Seq::<char>::empty()
    };
    let san = seq![piece_letter(p)] + origin + cap + to_name;
    assert(origin.len() <= 2);
    assert forall|i: int| 0 <= i < origin.len() implies #[trigger] origin[i] != 'x' && (origin[i] as u32) < 0x80 by {
    }
    assert(san.last() == to_name[1]);
    assert(!is_annotation(san.last()));
    assert(strip_annotations(san) == san);
    assert(san.subrange(san.len() - 2, san.len() as int) =~= to_name);
    assert(san.subrange(1, san.len() - 2) =~= origin + cap);
    lemma_without_x_plain(origin, cap);
    assert forall|i: int| 0 <= i < san.len() implies (#[trigger] san[i] as u32) < 0x80 by {
        if 1 <= i < 1 + origin.len() {
            assert(san[i] == origin[i - 1]);
        } else if i >= 1 + origin.len() + cap.len() {
            assert(san[i] == to_name[i - 1 - origin.len() - cap.len()]);
        }
    }
    lemma_ascii_utf8_len(san);
    lemma_ascii_utf8_len(origin);
    assert(san.contains('x') == b[move_to(m) as int] is Some) by {
        if b[move_to(m) as int] is Some {
            assert(san[1 + origin.len() as int] == 'x');
        } else {
            assert forall|i: int| 0 <= i < san.len() implies san[i] != 'x' by {
                if 1 <= i < 1 + origin.len() {
                    assert(san[i] == origin[i - 1]);
                } else if i >= 1 + origin.len() {
                    assert(san[i] == to_name[i - 1 - origin.len()]);
                }
            }
        }
    }
}


/// Standard notation for a pawn move is recognised: a push by its target
/// (`e4`), a capture by the source file, a capture mark and the target
/// (`exd5`), and a promotion by either of those followed by `=` and the
/// letter of the piece promoted to (`d8=Q`, `axb8=N`).
pub proof fn lemma_pawn_san_recognised(b: Board, m: u16)
    requires
        0 <= move_from(m) < 64,
        0 <= move_to(m) < 64,
        b[move_from(m) as int] is Some,
        b[move_from(m) as int].unwrap().0 == Piece::Pawn,
    ensures
        ({
            let file = square_name(move_from(m) as int)[0];
            let to_name = square_name(move_to(m) as int);
            match move_promotion(m) {
                None => {
                    &&& san_matches(b, m, to_name)
                    &&& san_matches(b, m, seq![file, 'x'] + to_name)
                },
                Some(q) => {
                    &&& san_matches(b, m, to_name + seq!['=', piece_letter(q)])
                    &&& san_matches(b, m, seq![file, 'x'] + to_name + seq!['=', piece_letter(q)])
                },
            }
        }),
{
    let file = square_name(move_from(m) as int)[0];
    let to_name = square_name(move_to(m) as int);
    let push = to_name;
    let capture = seq![file, 'x'] + to_name;
    assert(capture[1] == 'x');
    lemma_ascii_utf8_len(push);
    lemma_ascii_utf8_len(capture);
    assert(!is_annotation(push.last()));
    assert(!is_annotation(capture.last()));
    match move_promotion(m) {
        None => {},
        Some(q) => {
            let promo = to_name + seq!['=', piece_letter(q)];
            let cpromo = capture + seq!['=', piece_letter(q)];
            assert(promo[2] == '=');
            assert(cpromo[4] == '=');
            assert(cpromo[1] == 'x');
            lemma_ascii_utf8_len(promo);
            lemma_ascii_utf8_len(cpromo);
            assert(!is_annotation(promo.last()));
            assert(!is_annotation(cpromo.last()));
            assert(strip_annotations(promo) == promo);
            assert(strip_annotations(cpromo) == cpromo);
            assert(!promo.contains('x')) by {
                assert forall|i: int| 0 <= i < promo.len() implies promo[i] != 'x' by {
                    if i < 2 {
                        assert(promo[i] == to_name[i]);
                    }
                }
            }
            assert(cpromo == seq![file, 'x'] + to_name + seq!['=', piece_letter(q)]);
        },
    }
}

} // verus!
