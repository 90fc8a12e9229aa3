use vstd::prelude::*;

verus! {

/// A square index: file + 8 * rank, with a1 = 0 and h8 = 63.
pub type BoardSquare = u8;

pub const A1: BoardSquare = 0;
pub const B1: BoardSquare = 1;
pub const C1: BoardSquare = 2;
pub const D1: BoardSquare = 3;
pub const E1: BoardSquare = 4;
pub const F1: BoardSquare = 5;
pub const G1: BoardSquare = 6;
pub const H1: BoardSquare = 7;
pub const A8: BoardSquare = 56;
pub const B8: BoardSquare = 57;
pub const C8: BoardSquare = 58;
pub const D8: BoardSquare = 59;
pub const E8: BoardSquare = 60;
pub const F8: BoardSquare = 61;
pub const G8: BoardSquare = 62;
pub const H8: BoardSquare = 63;

/// The square that `s` names: a file letter `a`..`h` followed by a rank
/// digit `1`..`8` (anything after them is ignored); other text names no
/// square.
pub open spec fn spec_parse_square(s: Seq<char>) -> Option<BoardSquare> {
    if s.len() >= 2 && 'a' <= s[0] <= 'h' && '1' <= s[1] <= '8' {
        Some(((s[0] as int - 97) + 8 * (s[1] as int - 49)) as u8)
    } else {
        None
    }
}

/// The two-character name of a square on the board (`a1` .. `h8`).
pub open spec fn square_name(sq: int) -> Seq<char> {
    seq![((sq % 8) + 97) as char, ((sq / 8) + 49) as char]
}

/// File of a square (0 = a).
pub fn get_x(sq: BoardSquare) -> (r: u8)
    ensures
        r == sq % 8,
{
    sq % 8
}

/// Rank of a square (0 = first rank).
pub fn get_y(sq: BoardSquare) -> (r: u8)
    ensures
        r == sq / 8,
{
    sq / 8
}

/// The square at file `x` and rank `y`.
pub fn from_position(x: u8, y: u8) -> (r: BoardSquare)
    requires
        y < 32,
        x + 8 * y < 256,
    ensures
        r == x + 8 * y,
{
    x + y * 8
}

/// The bitboard holding only this square.
pub fn to_mask(sq: BoardSquare) -> (r: u64)
    requires
        sq < 64,
    ensures
        r == 1u64 << sq,
{
    1u64 << sq
}

/// Parses a square name such as `e4`: a file letter `a`..`h` and a rank
/// digit `1`..`8`; anything after them is ignored.
pub fn parse(s: &str) -> (r: Option<BoardSquare>)
    ensures
        r == spec_parse_square(s@),
        r matches Some(sq) ==> sq < 64,
{
    let n = s.unicode_len();
    if n < 2 {
        return None;
    }
    let file = s.get_char(0);
    let rank = s.get_char(1);
    if 'a' <= file && file <= 'h' && '1' <= rank && rank <= '8' {
        let x = (file as u32 - 97) as u8;
        let y = (rank as u32 - 49) as u8;
        Some(from_position(x, y))
    } else {
        None
    }
}

/// The name of a square, such as `e4`.
pub fn unparse(sq: BoardSquare) -> (r: String)
    requires
        sq < 64,
    ensures
        r@ == square_name(sq as int),
{
    let mut r = String::new();
    let f = ((sq % 8) + 97) as char;
    let k = ((sq / 8) + 49) as char;
    crate::text::push_char(&mut r, f);
    crate::text::push_char(&mut r, k);
    assert(r@ =~= square_name(sq as int));
    r
}

/// Naming a board square and parsing the name gives the square back.
pub proof fn lemma_parse_unparse(sq: BoardSquare)
    requires
        sq < 64,
    ensures
        spec_parse_square(square_name(sq as int)) == Some(sq),
{
}

} // verus!
