use vstd::prelude::*;
use crate::pieces::{Piece, Color, ColoredPiece, piece_of_char};
use crate::rules::Board;
use crate::text::{spec_is_whitespace, whitespace, decimal};
use crate::square::spec_parse_square;

verus! {

// Reading positions in Forsyth-Edwards Notation, as the engine reads them.

/// The standard starting position.
pub const START_FEN: &'static str = "rnbqkbnr/pppppppp/8/8/8/8/PPPPPPPP/RNBQKBNR w KQkq - 0 1";

/// The whitespace-separated tokens of `s` from position `i`, given the
/// token being read and the tokens already complete.
pub open spec fn tokens_from(s: Seq<char>, i: int, cur: Seq<char>, acc: Seq<Seq<char>>) -> Seq<Seq<char>>
    decreases s.len() - i,
{
    if i >= s.len() {
        if cur.len() > 0 {
            acc.push(cur)
        } else {
            acc
        }
    } else if spec_is_whitespace(s[i]) {
        tokens_from(s, i + 1, Seq::empty(), if cur.len() > 0 {
            acc.push(cur)
        } else {
            acc
        })
    } else {
        tokens_from(s, i + 1, cur.push(s[i]), acc)
    }
}

/// The whitespace-separated tokens of `s` (what `split_whitespace` yields).
pub open spec fn tokens(s: Seq<char>) -> Seq<Seq<char>> {
    tokens_from(s, 0, Seq::empty(), Seq::empty())
}

/// The state after reading characters `i..` of `s`, from the token being
/// read and the tokens complete.
pub open spec fn tokens_state(s: Seq<char>, i: int, cur: Seq<char>, acc: Seq<Seq<char>>) -> (Seq<char>, Seq<Seq<char>>)
    decreases s.len() - i,
{
    if i >= s.len() {
        (cur, acc)
    } else if spec_is_whitespace(s[i]) {
        tokens_state(s, i + 1, Seq::empty(), if cur.len() > 0 {
            acc.push(cur)
        } else {
            acc
        })
    } else {
        tokens_state(s, i + 1, cur.push(s[i]), acc)
    }
}

/// The tokens of a reading state at the end of the text.
pub open spec fn finish_tokens(st: (Seq<char>, Seq<Seq<char>>)) -> Seq<Seq<char>> {
    if st.0.len() > 0 {
        st.1.push(st.0)
    } else {
        st.1
    }
}

/// A nonempty word without whitespace.
pub open spec fn is_word(w: Seq<char>) -> bool {
    w.len() > 0 && forall|q: int| 0 <= q < w.len() ==> !spec_is_whitespace(#[trigger] w[q])
}

proof fn lemma_tokens_finish(s: Seq<char>, i: int, cur: Seq<char>, acc: Seq<Seq<char>>)
    ensures
        tokens_from(s, i, cur, acc) == finish_tokens(tokens_state(s, i, cur, acc)),
    decreases s.len() - i,
{
    if i < s.len() {
        if spec_is_whitespace(s[i]) {
            lemma_tokens_finish(s, i + 1, Seq::empty(), if cur.len() > 0 {
                acc.push(cur)
            } else {
                acc
            });
        } else {
            lemma_tokens_finish(s, i + 1, cur.push(s[i]), acc);
        }
    }
}

proof fn lemma_tokens_prefix(x: Seq<char>, r: Seq<char>, i: int, cur: Seq<char>, acc: Seq<Seq<char>>)
    requires
        0 <= i <= x.len(),
    ensures
        tokens_from(x + r, i, cur, acc) == tokens_from(
            x + r,
            x.len() as int,
            tokens_state(x, i, cur, acc).0,
            tokens_state(x, i, cur, acc).1,
        ),
    decreases x.len() - i,
{
    if i < x.len() {
        assert((x + r)[i] == x[i]);
        if spec_is_whitespace(x[i]) {
            lemma_tokens_prefix(x, r, i + 1, Seq::empty(), if cur.len() > 0 {
                acc.push(cur)
            } else {
                acc
            });
        } else {
            lemma_tokens_prefix(x, r, i + 1, cur.push(x[i]), acc);
        }
    }
}

proof fn lemma_tokens_run(s: Seq<char>, i: int, j: int, cur: Seq<char>, acc: Seq<Seq<char>>)
    requires
        0 <= i <= j <= s.len(),
        forall|q: int| i <= q < j ==> !spec_is_whitespace(#[trigger] s[q]),
    ensures
        tokens_from(s, i, cur, acc) == tokens_from(s, j, cur + s.subrange(i, j), acc),
    decreases j - i,
{
    if i < j {
        lemma_tokens_run(s, i + 1, j, cur.push(s[i]), acc);
        assert(cur.push(s[i]) + s.subrange(i + 1, j) =~= cur + s.subrange(i, j));
    } else {
        assert(cur + s.subrange(i, i) =~= cur);
    }
}

/// A word is its own only token.
pub proof fn lemma_tokens_of_word(w: Seq<char>)
    requires
        is_word(w),
    ensures
        tokens(w) == seq![w],
{
    lemma_tokens_run(w, 0, w.len() as int, Seq::empty(), Seq::empty());
    assert(Seq::<char>::empty() + w.subrange(0, w.len() as int) =~= w);
    assert(Seq::<Seq<char>>::empty().push(w) =~= seq![w]);
}

/// A space and a word after a text add the word to the text's tokens.
pub proof fn lemma_tokens_append_word(x: Seq<char>, w: Seq<char>)
    requires
        is_word(w),
    ensures
        tokens(x + seq![' '] + w) == tokens(x).push(w),
{
    let r = seq![' '] + w;
    let s = x + r;
    assert(x + seq![' '] + w =~= s);
    lemma_tokens_prefix(x, r, 0, Seq::empty(), Seq::empty());
    let st = tokens_state(x, 0, Seq::empty(), Seq::empty());
    lemma_tokens_finish(x, 0, Seq::empty(), Seq::empty());
    assert(s[x.len() as int] == ' ');
    assert(spec_is_whitespace(' '));
    assert forall|q: int| x.len() + 1 <= q < s.len() implies !spec_is_whitespace(#[trigger] s[q]) by {
        assert(s[q] == w[q - x.len() - 1]);
    }
    lemma_tokens_run(s, (x.len() + 1) as int, s.len() as int, Seq::empty(), finish_tokens(st));
    assert(Seq::<char>::empty() + s.subrange((x.len() + 1) as int, s.len() as int) =~= w);
}

proof fn lemma_tokens_keep_first(s: Seq<char>, i: int, cur: Seq<char>, acc: Seq<Seq<char>>)
    requires
        acc.len() > 0 || cur.len() > 0,
    ensures
        tokens_from(s, i, cur, acc).len() > 0,
        acc.len() > 0 ==> tokens_from(s, i, cur, acc)[0] == acc[0],
        acc.len() == 0 ==> tokens_from(s, i, cur, acc)[0].len() > 0 && tokens_from(s, i, cur, acc)[0][0] == cur[0],
    decreases s.len() - i,
{
    if i < s.len() {
        if spec_is_whitespace(s[i]) {
            lemma_tokens_keep_first(s, i + 1, Seq::empty(), if cur.len() > 0 {
                acc.push(cur)
            } else {
                acc
            });
        } else {
            lemma_tokens_keep_first(s, i + 1, cur.push(s[i]), acc);
        }
    }
}

/// A text that starts with a character other than whitespace has a first
/// token starting with that character.
pub proof fn lemma_first_token(s: Seq<char>)
    requires
        s.len() > 0,
        !spec_is_whitespace(s[0]),
    ensures
        tokens(s).len() > 0,
        tokens(s)[0].len() > 0,
        tokens(s)[0][0] == s[0],
{
    lemma_tokens_keep_first(s, 1, seq![s[0]], Seq::empty());
    assert(Seq::<char>::empty().push(s[0]) =~= seq![s[0]]);
}

/// The characters of a string.
pub fn chars_of(s: &str) -> (r: Vec<char>)
    ensures
        r@ == s@,
{
    let n = s.unicode_len();
    let mut r: Vec<char> = Vec::new();
    let mut i: usize = 0;
    while i < n
        invariant
            n == s@.len(),
            i <= n,
            r@ == s@.subrange(0, i as int),
        decreases n - i,
    {
        r.push(s.get_char(i));
        assert(r@ =~= s@.subrange(0, i + 1));
        i = i + 1;
    }
    assert(r@ =~= s@);
    r
}

/// Splits characters at whitespace into tokens.
pub fn split_whitespace(s: &Vec<char>) -> (r: Vec<Vec<char>>)
    ensures
        r@.len() == tokens(s@).len(),
        forall|k: int| 0 <= k < r@.len() ==> (#[trigger] r@[k])@ == tokens(s@)[k],
{
    let mut acc: Vec<Vec<char>> = Vec::new();
    let mut cur: Vec<char> = Vec::new();
    let mut i: usize = 0;
    let ghost acc_view: Seq<Seq<char>> = Seq::empty();
    while i < s.len()
        invariant
            i <= s@.len(),
            acc@.len() == acc_view.len(),
            forall|k: int| 0 <= k < acc@.len() ==> (#[trigger] acc@[k])@ == acc_view[k],
            tokens(s@) == tokens_from(s@, i as int, cur@, acc_view),
        decreases s@.len() - i,
    {
        let c = s[i];
        if whitespace(c) {
            if cur.len() > 0 {
                proof {
                    acc_view = acc_view.push(cur@);
                }
                acc.push(cur);
                cur = Vec::new();
            }
            assert(cur@ =~= Seq::<char>::empty());
        } else {
            cur.push(c);
        }
        i = i + 1;
    }
    if cur.len() > 0 {
        proof {
            acc_view = acc_view.push(cur@);
        }
        acc.push(cur);
    }
    acc
}

/// The value of a decimal digit character, if it is one (`to_digit(10)`).
pub open spec fn digit_value(c: char) -> Option<int> {
    if '0' <= c <= '9' {
        Some(c as int - 48)
    } else {
        None
    }
}

/// Whether a piece letter is upper case (a white piece).
pub open spec fn is_upper(c: char) -> bool {
    'A' <= c <= 'Z'
}

/// The lower-case form of an ASCII letter (other characters unchanged).
pub open spec fn to_lower(c: char) -> char {
    if is_upper(c) {
        ((c as u32) + 32) as char
    } else {
        c
    }
}

/// Reads the piece-placement field from character `i` on, at file `x` of
/// rank row `y` (row 0 is the eighth rank), into board `b`. Digits skip
/// files, `/` starts the next row, a piece letter places a piece, and any
/// other character skips a file. `None` where the square arithmetic would
/// overflow, a square falls off the board, or a square is filled twice.
pub open spec fn placement_from(t: Seq<char>, i: int, x: int, y: int, b: Board) -> Option<Board>
    decreases t.len() - i,
{
    if i >= t.len() || i < 0 {
        Some(b)
    } else {
        let ch = t[i];
        if ch == '/' {
            if y + 1 > u32::MAX {
                None
            } else {
                placement_from(t, i + 1, 0, y + 1, b)
            }
        } else if digit_value(ch) is Some {
            if x + digit_value(ch).unwrap() > u32::MAX {
                None
            } else {
                placement_from(t, i + 1, x + digit_value(ch).unwrap(), y, b)
            }
        } else {
            let xb = x % 256;
            let yb = y % 256;
            if yb > 7 || xb + 8 * (7 - yb) > 255 || x + 1 > u32::MAX {
                None
            } else {
                let sq = xb + 8 * (7 - yb);
                let color = if is_upper(ch) {
                    Color::White
                } else {
                    Color::Black
                };
                match piece_of_char(to_lower(ch)) {
                    Some(p) => if sq >= 64 || b[sq] is Some {
                        None
                    } else {
                        placement_from(t, i + 1, x + 1, y, b.update(sq, Some((p, color))))
                    },
                    None => placement_from(t, i + 1, x + 1, y, b),
                }
            }
        }
    }
}

/// An empty board.
pub open spec fn empty_board() -> Board {
    Seq::new(64, |i: int| None::<ColoredPiece>)
}

/// The board a placement field describes.
pub open spec fn placement(t: Seq<char>) -> Option<Board> {
    placement_from(t, 0, 0, 0, empty_board())
}

/// Reads a placement field.
pub fn parse_placement(t: &Vec<char>) -> (r: Option<[Option<ColoredPiece>; 64]>)
    ensures
        r matches Some(b) ==> placement(t@) == Some(b@),
        r is None ==> placement(t@) is None,
{
    let mut b: [Option<ColoredPiece>; 64] = [None; 64];
    assert(b@ =~= empty_board());
    let mut x: u32 = 0;
    let mut y: u32 = 0;
    let mut i: usize = 0;
    while i < t.len()
        invariant
            i <= t@.len(),
            placement(t@) == placement_from(t@, i as int, x as int, y as int, b@),
            b@.len() == 64,
        decreases t@.len() - i,
    {
        let ch = t[i];
        if ch == '/' {
            if y == u32::MAX {
                return None;
            }
            y = y + 1;
            x = 0;
        } else if '0' <= ch && ch <= '9' {
            let d = (ch as u32) - 48;
            if x > u32::MAX - d {
                return None;
            }
            x = x + d;
        } else {
            let xb = (x % 256) as u8;
            let yb = (y % 256) as u8;
            if yb > 7 || (xb as u32) + 8 * (7 - yb as u32) > 255 || x == u32::MAX {
                return None;
            }
            let sq = xb + 8 * (7 - yb);
            let color = if 'A' <= ch && ch <= 'Z' {
                Color::White
            } else {
                Color::Black
            };
            let lower = if 'A' <= ch && ch <= 'Z' {
                ((ch as u32) + 32) as u8 as char
            } else {
                ch
            };
            assert(lower == to_lower(ch));
            match Piece::from_char(lower) {
                Some(p) => {
                    if sq >= 64 || b[sq as usize].is_some() {
                        return None;
                    }
                    b[sq as usize] = Some((p, color));
                },
                None => {},
            }
            x = x + 1;
        }
        i = i + 1;
    }
    Some(b)
}

/// The value of the first `n` characters read as decimal digits, if they all are.
pub open spec fn digits_value(t: Seq<char>, n: int) -> Option<int>
    decreases n,
{
    if n <= 0 {
        Some(0)
    } else {
        match (digits_value(t, n - 1), digit_value(t[n - 1])) {
            (Some(v), Some(d)) => Some(10 * v + d),
            _ => None,
        }
    }
}

/// An unsigned decimal number as Rust's `FromStr` reads it: an optional
/// `+`, then at least one digit, and a value at most `max`.
pub open spec fn parse_unsigned(t: Seq<char>, max: int) -> Option<int> {
    let d = if t.len() > 0 && t[0] == '+' {
        t.drop_first()
    } else {
        t
    };
    if d.len() == 0 {
        None
    } else {
        match digits_value(d, d.len() as int) {
            Some(v) => if v <= max {
                Some(v)
            } else {
                None
            },
            None => None,
        }
    }
}

proof fn lemma_digits_value_grows(t: Seq<char>, n: int, k: int)
    requires
        0 <= k <= n,
        digits_value(t, n) is Some,
    ensures
        digits_value(t, k) is Some,
        digits_value(t, k).unwrap() <= digits_value(t, n).unwrap(),
        digits_value(t, k).unwrap() >= 0,
    decreases n,
{
    if n > k {
        lemma_digits_value_grows(t, n - 1, k);
        assert(digits_value(t, n - 1) is Some);
    } else if n > 0 {
        lemma_digits_value_grows(t, n - 1, n - 1);
    }
}

proof fn lemma_digits_value_none(t: Seq<char>, n: int, k: int)
    requires
        0 <= k <= n,
        digits_value(t, k) is None,
    ensures
        digits_value(t, n) is None,
    decreases n - k,
{
    if n > k {
        lemma_digits_value_none(t, n, k + 1);
    }
}

proof fn lemma_digits_value_big(t: Seq<char>, n: int, k: int, max: int)
    requires
        0 <= k <= n,
        digits_value(t, k) matches Some(v) && v > max,
        max >= 0,
    ensures
        digits_value(t, n) matches Some(w) ==> w > max,
    decreases n - k,
{
    if n > k {
        if digits_value(t, k + 1) is Some {
            lemma_digits_value_big(t, n, k + 1, max);
        } else {
            lemma_digits_value_none(t, n, k + 1);
        }
    }
}

/// Reads an unsigned decimal number no larger than `max`.
pub fn parse_unsigned_exec(t: &[char], max: u64) -> (r: Option<u64>)
    ensures
        r matches Some(v) ==> parse_unsigned(t@, max as int) == Some(v as int),
        r is None ==> parse_unsigned(t@, max as int) is None,
{
    let n = t.len();
    let start: usize = if n > 0 && t[0] == '+' {
        1
    } else {
        0
    };
    let ghost d = if t@.len() > 0 && t@[0] == '+' {
        t@.drop_first()
    } else {
        t@
    };
    assert(d =~= t@.subrange(start as int, n as int));
    if start == n {
        return None;
    }
    let mut v: u64 = 0;
    let mut i: usize = start;
    while i < n
        invariant
            start <= i <= n,
            n == t@.len(),
            d == t@.subrange(start as int, n as int),
            d == (if t@.len() > 0 && t@[0] == '+' {
                t@.drop_first()
            } else {
                t@
            }),
            digits_value(d, i - start) == Some(v as int),
            v <= max,
        decreases n - i,
    {
        let c = t[i];
        if !('0' <= c && c <= '9') {
            proof {
                assert(d[i - start] == c);
                assert(digits_value(d, i - start + 1) is None);
                lemma_digits_value_none(d, d.len() as int, i - start + 1);
                assert(digits_value(d, d.len() as int) is None);
                assert(d.len() > 0);
            }
            return None;
        }
        let digit = (c as u32 - 48) as u64;
        assert(d[i - start] == c);
        if digit > max || v > (max - digit) / 10 {
            proof {
                if digit <= max {
                    assert(10 * (v as int) + digit as int > max as int) by (nonlinear_arith)
                        requires
                            v > (max - digit) / 10,
                            digit <= max,
                    ;
                }
                assert(digits_value(d, i - start + 1) == Some(10 * (v as int) + digit as int));
                lemma_digits_value_big(d, d.len() as int, i - start + 1, max as int);
            }
            return None;
        }
        assert(10 * (v as int) + digit as int <= max as int) by (nonlinear_arith)
            requires
                v <= (max - digit) / 10,
                digit <= max,
        ;
        v = 10 * v + digit;
        i = i + 1;
    }
    Some(v)
}

/// Castling rights named by the castling field, from character `i` on.
pub open spec fn castling_bits(t: Seq<char>, i: int) -> u8
    decreases t.len() - i,
{
    if i >= t.len() || i < 0 {
        0
    } else {
        let rest = castling_bits(t, i + 1);
        if t[i] == 'k' {
            rest | 1
        } else if t[i] == 'q' {
            rest | 2
        } else if t[i] == 'K' {
            rest | 4
        } else if t[i] == 'Q' {
            rest | 8
        } else {
            rest
        }
    }
}

/// What a FEN string describes.
pub struct FenFields {
    pub board: Board,
    pub black_to_move: bool,
    pub castling: u8,
    pub ep: u64,
    pub halfmoves_since_capture: u8,
    pub halfmoves: usize,
}

/// The fields of a FEN string, or `None` where the engine's reader would
/// fail: a missing placement, side or castling field, a side other than `w`
/// or `b`, an en-passant field that is neither `-` nor a square on the
/// board, counters that do not read as numbers, a full-move number of zero,
/// or a placement that `placement` refuses. The halfmove clock and the
/// full-move number default to 0 and 1.
pub open spec fn fen_fields(s: Seq<char>) -> Option<FenFields> {
    let toks = tokens(s);
    if toks.len() < 4 {
        None
    } else if placement(toks[0]) is None {
        None
    } else if toks[1] != seq!['b'] && toks[1] != seq!['w'] {
        None
    } else {
        let black = toks[1] == seq!['b'];
        let ep_tok = toks[3];
        let ep: Option<u64> = if ep_tok == seq!['-'] {
            Some(0u64)
        } else {
            match spec_parse_square(ep_tok) {
                Some(sq) => if sq < 64 {
                    Some(1u64 << (sq as u64))
                } else {
                    None
                },
                None => None,
            }
        };
        let hm_tok = if toks.len() > 4 {
            toks[4]
        } else {
            seq!['0']
        };
        let fm_tok = if toks.len() > 5 {
            toks[5]
        } else {
            seq!['1']
        };
        match (ep, parse_unsigned(hm_tok, 255), parse_unsigned(fm_tok, usize::MAX as int)) {
            (Some(e), Some(h), Some(f)) => {
                let halfmoves = (f - 1) * 2 + 1 + if black {
                    1int
                } else {
                    0int
                };
                if f < 1 || (f - 1) * 2 + 1 > usize::MAX || halfmoves > usize::MAX {
                    None
                } else {
                    Some(
                        FenFields {
                            board: placement(toks[0]).unwrap(),
                            black_to_move: black,
                            castling: castling_bits(toks[2], 0),
                            ep: e,
                            halfmoves_since_capture: h as u8,
                            halfmoves: halfmoves as usize,
                        },
                    )
                }
            },
            _ => None,
        }
    }
}

/// Executable form of the FEN fields.
pub struct FenData {
    pub board: [Option<ColoredPiece>; 64],
    pub black_to_move: bool,
    pub castling: u8,
    pub ep: u64,
    pub halfmoves_since_capture: u8,
    pub halfmoves: usize,
}

impl FenData {
    pub open spec fn view_fields(&self) -> FenFields {
        FenFields {
            board: self.board@,
            black_to_move: self.black_to_move,
            castling: self.castling,
            ep: self.ep,
            halfmoves_since_capture: self.halfmoves_since_capture,
            halfmoves: self.halfmoves,
        }
    }
}

/// Whether two character sequences are the same.
pub fn chars_eq(a: &Vec<char>, b: &[char]) -> (r: bool)
    ensures
        r == (a@ == b@),
{
    if a.len() != b.len() {
        return false;
    }
    let mut i: usize = 0;
    while i < a.len()
        invariant
            a@.len() == b@.len(),
            i <= a@.len(),
            forall|j: int| 0 <= j < i ==> a@[j] == b@[j],
        decreases a@.len() - i,
    {
        if a[i] != b[i] {
            return false;
        }
        i = i + 1;
    }
    assert(a@ =~= b@);
    true
}

/// Reads the castling field.
pub fn parse_castling(t: &Vec<char>) -> (r: u8)
    ensures
        r == castling_bits(t@, 0),
        r < 16,
{
    let mut f: u8 = 0;
    let mut i: usize = t.len();
    while i > 0
        invariant
            i <= t@.len(),
            f == castling_bits(t@, i as int),
            f < 16,
        decreases i,
    {
        i = i - 1;
        let c = t[i];
        let old_f = f;
        if c == 'k' {
            f = f | 1;
        } else if c == 'q' {
            f = f | 2;
        } else if c == 'K' {
            f = f | 4;
        } else if c == 'Q' {
            f = f | 8;
        }
        assert(old_f < 16 ==> (old_f | 1) < 16 && (old_f | 2) < 16 && (old_f | 4) < 16 && (old_f | 8) < 16) by (bit_vector);
    }
    f
}

/// Reads a square name given as characters.
fn parse_square_chars(t: &Vec<char>) -> (r: Option<u8>)
    ensures
        r == spec_parse_square(t@),
{
    if t.len() < 2 {
        return None;
    }
    let file = t[0];
    let rank = t[1];
    if 'a' <= file && file <= 'h' && '1' <= rank && rank <= '8' {
        Some(crate::square::from_position((file as u32 - 97) as u8, (rank as u32 - 49) as u8))
    } else {
        None
    }
}

/// Reads a FEN string.
pub fn parse_fen(s: &str) -> (r: Option<FenData>)
    ensures
        r matches Some(d) ==> fen_fields(s@) == Some(d.view_fields()) && d.castling < 16,
        r is None ==> fen_fields(s@) is None,
{
    let chars = chars_of(s);
    let toks = split_whitespace(&chars);
    if toks.len() < 4 {
        return None;
    }
    let board = match parse_placement(&toks[0]) {
        Some(b) => b,
        None => {
            return None;
        },
    };
    let b_tok = chars_eq(&toks[1], &['b']);
    let w_tok = chars_eq(&toks[1], &['w']);
    proof {
        assert(seq!['b'] =~= ['b']@);
        assert(seq!['w'] =~= ['w']@);
    }
    if !b_tok && !w_tok {
        return None;
    }
    let castling = parse_castling(&toks[2]);
    let dash = chars_eq(&toks[3], &['-']);
    proof {
        assert(seq!['-'] =~= ['-']@);
    }
    let ep: u64 = if dash {
        0
    } else {
        match parse_square_chars(&toks[3]) {
            Some(sq) => if sq < 64 {
                1u64 << sq
            } else {
                return None;
            },
            None => {
                return None;
            },
        }
    };
    let zero = ['0'];
    let one = ['1'];
    proof {
        assert(seq!['0'] =~= zero@);
        assert(seq!['1'] =~= one@);
    }
    let hm = if toks.len() > 4 {
        parse_unsigned_exec(toks[4].as_slice(), 255)
    } else {
        parse_unsigned_exec(&zero, 255)
    };
    let fm = if toks.len() > 5 {
        parse_unsigned_exec(toks[5].as_slice(), usize::MAX as u64)
    } else {
        parse_unsigned_exec(&one, usize::MAX as u64)
    };
    let (h, f) = match (hm, fm) {
        (Some(h), Some(f)) => (h, f),
        _ => {
            return None;
        },
    };
    if f < 1 || (f - 1) > ((usize::MAX as u64) - 1) / 2 {
        return None;
    }
    let base = (f - 1) * 2 + 1;
    if b_tok && base == usize::MAX as u64 {
        return None;
    }
    let halfmoves = if b_tok {
        base + 1
    } else {
        base
    };
    Some(
        FenData {
            board,
            black_to_move: b_tok,
            castling,
            ep,
            halfmoves_since_capture: h as u8,
            halfmoves: halfmoves as usize,
        },
    )
}

/// The FEN letter of a piece: upper case for white.
pub open spec fn fen_char(cp: ColoredPiece) -> char {
    let c = crate::pieces::piece_char(cp.0);
    if cp.1 == Color::White {
        ((c as u32) - 32) as char
    } else {
        c
    }
}

/// The digit of a count of empty squares (written only when non-zero).
pub open spec fn run_digit(run: int) -> Seq<char> {
    if run > 0 {
        seq![(run + 48) as char]
    } else {
        Seq::empty()
    }
}

/// The FEN text of rank `y` from file `x` on, after `run` empty squares.
pub open spec fn rank_text(b: Board, y: int, x: int, run: int) -> Seq<char>
    decreases 8 - x,
{
    if x >= 8 {
        run_digit(run)
    } else {
        match b[x + 8 * y] {
            Some(cp) => run_digit(run) + seq![fen_char(cp)] + rank_text(b, y, x + 1, 0),
            None => rank_text(b, y, x + 1, run + 1),
        }
    }
}

/// The FEN text of the ranks from the eighth down to rank `y` (rank rows
/// separated by `/`).
pub open spec fn placement_text(b: Board, y: int) -> Seq<char>
    decreases 8 - y,
{
    if y >= 7 {
        rank_text(b, 7, 0, 0)
    } else if y < 0 {
        Seq::empty()
    } else {
        placement_text(b, y + 1) + seq!['/'] + rank_text(b, y, 0, 0)
    }
}

/// The FEN castling field.
pub open spec fn castling_text(f: u8) -> Seq<char> {
    let s = (if f & 4 != 0 {
        seq!['K']
    } else {
        Seq::empty()
    }) + (if f & 8 != 0 {
        seq!['Q']
    } else {
        Seq::empty()
    }) + (if f & 1 != 0 {
        seq!['k']
    } else {
        Seq::empty()
    }) + (if f & 2 != 0 {
        seq!['q']
    } else {
        Seq::empty()
    });
    if s.len() == 0 {
        seq!['-']
    } else {
        s
    }
}

} // verus!

verus! {

// Reading back the placement field that `placement_text` writes.

/// Reading a text after a prefix is reading the text.
proof fn lemma_placement_shift(p: Seq<char>, s: Seq<char>, i: int)
    requires
        p.len() <= i <= p.len() + s.len(),
    ensures
        forall|x: int, y: int, b: Board| #[trigger] placement_from(p + s, i, x, y, b) == placement_from(
            s,
            i - p.len(),
            x,
            y,
            b,
        ),
    decreases p.len() + s.len() - i,
{
    if i < p.len() + s.len() {
        lemma_placement_shift(p, s, i + 1);
        assert((p + s)[i] == s[i - p.len()]);
        assert forall|x: int, y: int, b: Board| #[trigger] placement_from(p + s, i, x, y, b) == placement_from(
            s,
            i - p.len(),
            x,
            y,
            b,
        ) by {
            let t = p + s;
            let j = i - p.len();
            assert(j + 1 == (i + 1) - p.len());
            let ch = t[i];
            assert(ch == s[j]);
            if ch == '/' {
                if y + 1 <= u32::MAX {
                    assert(placement_from(t, i + 1, 0, y + 1, b) == placement_from(s, j + 1, 0, y + 1, b));
                }
            } else if digit_value(ch) is Some {
                let d = digit_value(ch).unwrap();
                if x + d <= u32::MAX {
                    assert(placement_from(t, i + 1, x + d, y, b) == placement_from(s, j + 1, x + d, y, b));
                }
            } else {
                let xb = x % 256;
                let yb = y % 256;
                if !(yb > 7 || xb + 8 * (7 - yb) > 255 || x + 1 > u32::MAX) {
                    let sq = xb + 8 * (7 - yb);
                    let color = if is_upper(ch) {
                        Color::White
                    } else {
                        Color::Black
                    };
                    match piece_of_char(to_lower(ch)) {
                        Some(pc) => {
                            if !(sq >= 64 || b[sq] is Some) {
                                let b2 = b.update(sq, Some((pc, color)));
                                assert(placement_from(t, i + 1, x + 1, y, b2) == placement_from(s, j + 1, x + 1, y, b2));
                            }
                        },
                        None => {
                            assert(placement_from(t, i + 1, x + 1, y, b) == placement_from(s, j + 1, x + 1, y, b));
                        },
                    }
                }
            }
        }
    }
}

/// Reading a text that starts with `c`, past `c`, is reading the rest.
proof fn lemma_placement_head(c: char, s: Seq<char>)
    ensures
        forall|x: int, y: int, b: Board| placement_from(seq![c] + s, 1, x, y, b) == #[trigger] placement_from(s, 0, x, y, b),
{
    lemma_placement_shift(seq![c], s, 1);
}

/// The board with the pieces of `b` on row `r` from file `x` on added to
/// `acc`.
pub open spec fn fill_row(acc: Board, b: Board, r: int, x: int) -> Board {
    Seq::new(64, |s: int| if x + 8 * r <= s < 8 * r + 8 && b[s] is Some {
        b[s]
    } else {
        acc[s]
    })
}

/// Reading the text of row `r` from file `x` on, after `run` empty squares,
/// places the row's pieces and ends at file 8.
proof fn lemma_rank_read(b: Board, r: int, x: int, run: int, rest: Seq<char>, acc: Board)
    requires
        b.len() == 64,
        acc.len() == 64,
        0 <= r < 8,
        0 <= run <= x <= 8,
        forall|f: int| x - run <= f < 8 ==> #[trigger] acc[f + 8 * r] is None,
        forall|f: int| x - run <= f < x ==> #[trigger] b[f + 8 * r] is None,
    ensures
        placement_from(rank_text(b, r, x, run) + rest, 0, x - run, 7 - r, acc) == placement_from(
            rest,
            0,
            8,
            7 - r,
            fill_row(acc, b, r, x - run),
        ),
    decreases 8 - x,
{
    let y = 7 - r;
    let x0 = x - run;
    if x >= 8 {
        if run > 0 {
            let d = (run + 48) as char;
            assert(digit_value(d) == Some(run));
            assert(rank_text(b, r, x, run) + rest =~= seq![d] + rest);
            lemma_placement_head(d, rest);
            assert(placement_from(seq![d] + rest, 0, x0, y, acc) == placement_from(seq![d] + rest, 1, 8, y, acc));
        } else {
            assert(rank_text(b, r, x, run) + rest =~= rest);
        }
        assert forall|q: int| 0 <= q < 64 implies #[trigger] fill_row(acc, b, r, x0)[q] == acc[q] by {
            if x0 + 8 * r <= q < 8 * r + 8 {
                assert(b[(q - 8 * r) + 8 * r] is None);
            }
        }
        assert(fill_row(acc, b, r, x0) =~= acc);
    } else {
        match b[x + 8 * r] {
            Some(cp) => {
                let ch = fen_char(cp);
                let after = rank_text(b, r, x + 1, 0) + rest;
                let acc2 = acc.update(x + 8 * r, Some(cp));
                assert(ch != '/' && digit_value(ch) is None && is_upper(ch) == (cp.1 == Color::White)
                    && piece_of_char(to_lower(ch)) == Some(cp.0)) by {
                    match cp.0 {
                        Piece::Pawn => {},
                        Piece::Knight => {},
                        Piece::Bishop => {},
                        Piece::Rook => {},
                        Piece::Queen => {},
                        Piece::King => {},
                    }
                }
                assert(acc[x + 8 * r] is None);
                assert forall|f: int| x + 1 <= f < 8 implies #[trigger] acc2[f + 8 * r] is None by {
                    assert(acc[f + 8 * r] is None);
                }
                lemma_rank_read(b, r, x + 1, 0, rest, acc2);
                lemma_placement_head(ch, after);
                assert(x % 256 == x && y % 256 == y);
                assert(x + 8 * (7 - y) == x + 8 * r);
                assert(placement_from(seq![ch] + after, 0, x, y, acc) == placement_from(seq![ch] + after, 1, x + 1, y, acc2));
                assert(placement_from(after, 0, x + 1, y, acc2) == placement_from(rest, 0, 8, y, fill_row(acc2, b, r, x + 1)));
                if run > 0 {
                    let d = (run + 48) as char;
                    assert(digit_value(d) == Some(run));
                    assert(rank_text(b, r, x, run) + rest =~= seq![d] + (seq![ch] + after));
                    lemma_placement_head(d, seq![ch] + after);
                    assert(placement_from(seq![d] + (seq![ch] + after), 0, x0, y, acc) == placement_from(
                        seq![d] + (seq![ch] + after),
                        1,
                        x,
                        y,
                        acc,
                    ));
                } else {
                    assert(rank_text(b, r, x, run) + rest =~= seq![ch] + after);
                }
                assert forall|q: int| 0 <= q < 64 implies #[trigger] fill_row(acc2, b, r, x + 1)[q] == fill_row(
                    acc,
                    b,
                    r,
                    x0,
                )[q] by {
                    if x0 + 8 * r <= q < x + 8 * r {
                        assert(b[(q - 8 * r) + 8 * r] is None);
                    }
                }
                assert(fill_row(acc2, b, r, x + 1) =~= fill_row(acc, b, r, x0));
            },
            None => {
                lemma_rank_read(b, r, x + 1, run + 1, rest, acc);
            },
        }
    }
}

/// The board with the rows of `b` from row `r` up.
pub open spec fn rows_from(b: Board, r: int) -> Board {
    Seq::new(64, |s: int| if s >= 8 * r {
        b[s]
    } else {
        None
    })
}

/// Reading the text of the rows from the eighth down to row `r` places
/// their pieces and ends at file 8 of that row.
proof fn lemma_placement_read(b: Board, r: int, rest: Seq<char>)
    requires
        b.len() == 64,
        0 <= r <= 7,
    ensures
        placement_from(placement_text(b, r) + rest, 0, 0, 0, empty_board()) == placement_from(
            rest,
            0,
            8,
            7 - r,
            rows_from(b, r),
        ),
    decreases 7 - r,
{
    if r == 7 {
        lemma_rank_read(b, 7, 0, 0, rest, empty_board());
        assert(fill_row(empty_board(), b, 7, 0) =~= rows_from(b, 7));
    } else {
        let tail = seq!['/'] + (rank_text(b, r, 0, 0) + rest);
        lemma_placement_read(b, r + 1, tail);
        assert(placement_text(b, r) + rest =~= placement_text(b, r + 1) + tail);
        lemma_placement_head('/', rank_text(b, r, 0, 0) + rest);
        lemma_rank_read(b, r, 0, 0, rest, rows_from(b, r + 1));
        assert(fill_row(rows_from(b, r + 1), b, r, 0) =~= rows_from(b, r));
    }
}

/// The placement field of a board reads back as the board.
pub proof fn lemma_placement_text_reads(b: Board)
    requires
        b.len() == 64,
    ensures
        placement(placement_text(b, 0)) == Some(b),
{
    lemma_placement_read(b, 0, Seq::empty());
    assert(placement_text(b, 0) + Seq::<char>::empty() =~= placement_text(b, 0));
    assert(rows_from(b, 0) =~= b);
}

// Reading back the decimal form of a number.

proof fn lemma_digits_value_push(t: Seq<char>, c: char, n: int)
    requires
        0 <= n <= t.len(),
    ensures
        digits_value(t.push(c), n) == digits_value(t, n),
    decreases n,
{
    if n > 0 {
        lemma_digits_value_push(t, c, n - 1);
        assert(t.push(c)[n - 1] == t[n - 1]);
    }
}

/// The decimal form of a number is made of digits and reads back as the
/// number.
pub proof fn lemma_decimal_reads(n: nat)
    ensures
        decimal(n).len() > 0,
        forall|q: int| 0 <= q < decimal(n).len() ==> '0' <= #[trigger] decimal(n)[q] <= '9',
        digits_value(decimal(n), decimal(n).len() as int) == Some(n as int),
    decreases n,
{
    if n >= 10 {
        let p = decimal(n / 10);
        lemma_decimal_reads(n / 10);
        let c = ((n % 10) + 48) as char;
        lemma_digits_value_push(p, c, p.len() as int);
        assert(decimal(n) == p.push(c));
        assert forall|q: int| 0 <= q < decimal(n).len() implies '0' <= #[trigger] decimal(n)[q] <= '9' by {
            if q < p.len() {
                assert(decimal(n)[q] == p[q]);
            }
        }
        assert(digit_value(c) == Some((n % 10) as int));
    } else {
        let c = (n + 48) as char;
        assert(decimal(n) == seq![c]);
        assert(digit_value(c) == Some(n as int));
        assert(digits_value(seq![c], 0) == Some(0int));
    }
}

/// The decimal form of a number no larger than `max` parses back as the
/// number.
pub proof fn lemma_decimal_parses(n: nat, max: int)
    requires
        n <= max,
    ensures
        parse_unsigned(decimal(n), max) == Some(n as int),
{
    lemma_decimal_reads(n);
    assert('0' <= decimal(n)[0] <= '9');
}

// The words of the FEN text.

/// The text of a row from file `x` on holds no whitespace, and is not empty
/// while squares or an empty run remain.
pub proof fn lemma_rank_text_word(b: Board, r: int, x: int, run: int)
    requires
        b.len() == 64,
        0 <= r < 8,
        0 <= run <= x <= 8,
    ensures
        (x < 8 || run > 0) ==> rank_text(b, r, x, run).len() > 0,
        forall|q: int| 0 <= q < rank_text(b, r, x, run).len() ==> !spec_is_whitespace(#[trigger] rank_text(b, r, x, run)[q]),
    decreases 8 - x,
{
    let t = rank_text(b, r, x, run);
    let rd = run_digit(run);
    assert forall|q: int| 0 <= q < rd.len() implies !spec_is_whitespace(#[trigger] rd[q]) by {
        assert(rd[q] == (run + 48) as char);
    }
    if x < 8 {
        match b[x + 8 * r] {
            Some(cp) => {
                lemma_rank_text_word(b, r, x + 1, 0);
                let ch = fen_char(cp);
                assert(!spec_is_whitespace(ch)) by {
                    match cp.0 {
                        Piece::Pawn => {},
                        Piece::Knight => {},
                        Piece::Bishop => {},
                        Piece::Rook => {},
                        Piece::Queen => {},
                        Piece::King => {},
                    }
                }
                let u = rank_text(b, r, x + 1, 0);
                assert(t == rd + seq![ch] + u);
                assert forall|q: int| 0 <= q < t.len() implies !spec_is_whitespace(#[trigger] t[q]) by {
                    if q < rd.len() {
                        assert(t[q] == rd[q]);
                    } else if q == rd.len() {
                        assert(t[q] == ch);
                    } else {
                        assert(t[q] == u[q - rd.len() - 1]);
                    }
                }
            },
            None => {
                lemma_rank_text_word(b, r, x + 1, run + 1);
            },
        }
    }
}

/// The placement text holds no whitespace and is not empty.
pub proof fn lemma_placement_text_word(b: Board, r: int)
    requires
        b.len() == 64,
        0 <= r <= 7,
    ensures
        is_word(placement_text(b, r)),
    decreases 7 - r,
{
    if r == 7 {
        lemma_rank_text_word(b, 7, 0, 0);
    } else {
        lemma_placement_text_word(b, r + 1);
        lemma_rank_text_word(b, r, 0, 0);
        let a = placement_text(b, r + 1);
        let c = rank_text(b, r, 0, 0);
        let t = placement_text(b, r);
        assert(t == a + seq!['/'] + c);
        assert forall|q: int| 0 <= q < t.len() implies !spec_is_whitespace(#[trigger] t[q]) by {
            if q < a.len() {
                assert(t[q] == a[q]);
            } else if q == a.len() {
                assert(t[q] == '/');
            } else {
                assert(t[q] == c[q - a.len() - 1]);
            }
        }
    }
}

} // verus!
