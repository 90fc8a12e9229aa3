use vstd::prelude::*;
use vstd::std_specs::bits::u16_trailing_zeros;
use crate::pieces::{Piece, piece_index, piece_of_index, piece_char, piece_of_char};
use crate::square::{BoardSquare, square_name, spec_parse_square};
use crate::text::{spec_str_get, str_get};

verus! {

/// A move packed in 16 bits: source square in bits 0..6, target square in
/// bits 6..12, and a promotion piece as a one-hot flag in bits 12..16
/// (bit `12 + index` for knight, bishop, rook, queen).
pub type BoardMove = u16;

/// The promotion flag bits of an optional piece, before shifting into place.
pub open spec fn promotion_bits(p: Option<Piece>) -> u16 {
    match p {
        Some(q) => (1u16 << (piece_index(q) as u16)),
        None => 0u16,
    }
}

/// The encoding of a move.
pub open spec fn encode_move(from: u8, to: u8, p: Option<Piece>) -> u16 {
    (from as u16) | ((to as u16) << 6u16) | (promotion_bits(p) << 12u16)
}

/// Source square of an encoded move.
pub open spec fn move_from(m: u16) -> u8 {
    (m % 64) as u8
}

/// Target square of an encoded move.
pub open spec fn move_to(m: u16) -> u8 {
    ((m / 64) % 64) as u8
}

/// Promotion piece of an encoded move: the lowest set flag bit, if any.
pub open spec fn move_promotion(m: u16) -> Option<Piece> {
    if m >> 12u16 == 0 {
        None
    } else {
        piece_of_index(u16_trailing_zeros(m >> 12u16) as int)
    }
}

/// Whether a piece may be promoted to.
pub open spec fn promotable(p: Piece) -> bool {
    piece_index(p) < 4
}

/// The empty (null) move.
pub fn empty() -> (r: BoardMove)
    ensures
        r == 0,
{
    0
}

/// Encodes a move with an optional promotion.
pub fn new(from: BoardSquare, to: BoardSquare, promotion: Option<Piece>) -> (r: BoardMove)
    ensures
        r == encode_move(from, to, promotion),
{
    let bits: u16 = match promotion {
        Some(p) => 1u16 << (p.index() as u16),
        None => 0,
    };
    (from as u16) | ((to as u16) << 6u16) | (bits << 12u16)
}

/// Encodes a move without promotion.
pub fn regular(from: BoardSquare, to: BoardSquare) -> (r: BoardMove)
    ensures
        r == encode_move(from, to, None),
{
    let r = (from as u16) | ((to as u16) << 6u16);
    assert(r == r | (0u16 << 12u16)) by (bit_vector);
    r
}

/// Encodes a promoting move.
pub fn promoting(from: BoardSquare, to: BoardSquare, promotion: Piece) -> (r: BoardMove)
    ensures
        r == encode_move(from, to, Some(promotion)),
{
    (from as u16) | ((to as u16) << 6u16) | ((1u16 << (promotion.index() as u16)) << 12u16)
}

/// Source square of a move.
pub fn get_from(m: BoardMove) -> (r: BoardSquare)
    ensures
        r == move_from(m),
        r < 64,
{
    let b = (m as u8) & 63u8;
    assert((m as u8) & 63u8 == (m % 64) as u8) by (bit_vector);
    b
}

/// Target square of a move.
pub fn get_to(m: BoardMove) -> (r: BoardSquare)
    ensures
        r == move_to(m),
        r < 64,
{
    let b = ((m >> 6u16) as u8) & 63u8;
    assert(((m >> 6u16) as u8) & 63u8 == ((m / 64) % 64) as u8) by (bit_vector);
    b
}

/// Promotion piece of a move, if any.
pub fn get_promotion(m: BoardMove) -> (r: Option<Piece>)
    ensures
        r == move_promotion(m),
{
    let shifted = m >> 12u16;
    if shifted == 0 {
        None
    } else {
        Piece::from_repr(shifted.trailing_zeros() as usize)
    }
}

/// Encoding then decoding gives back the squares and the promotion.
pub proof fn lemma_encode_decode(from: u8, to: u8, p: Option<Piece>)
    requires
        from < 64,
        to < 64,
        p matches Some(q) ==> promotable(q),
    ensures
        move_from(encode_move(from, to, p)) == from,
        move_to(encode_move(from, to, p)) == to,
        move_promotion(encode_move(from, to, p)) == p,
{
    let pb = promotion_bits(p);
    let m = encode_move(from, to, p);
    assert(pb < 16) by {
        match p {
            Some(q) => {
                let i = piece_index(q) as u16;
                assert(i < 4 ==> (1u16 << i) < 16) by (bit_vector);
            },
            None => {},
        }
    }
    assert(from < 64 && to < 64 && pb < 16 && m == (from as u16) | ((to as u16) << 6u16) | (pb << 12u16) ==> m % 64 == from as u16 && (m / 64) % 64 == to as u16 && m >> 12u16 == pb) by (bit_vector);
    match p {
        Some(q) => {
            let i = piece_index(q) as u16;
            assert(i < 4 ==> (1u16 << i) >> i == 1 && (1u16 << i) != 0) by (bit_vector);
            lemma_tz_single_bit(i);
        },
        None => {},
    }
}

/// The trailing zero count of a single set bit is its position.
pub proof fn lemma_tz_single_bit(i: u16)
    requires
        i < 4,
    ensures
        u16_trailing_zeros(1u16 << i) == i,
{
    let x = 1u16 << i;
    vstd::std_specs::bits::axiom_u16_trailing_zeros(x);
    assert(i < 4 ==> x == 1u16 << i ==> x != 0) by (bit_vector);
    let t = u16_trailing_zeros(x) as u16;
    assert(i < 4 && t < 16 && x == 1u16 << i && (x >> t) & 1u16 == 1u16 ==> t == i) by (bit_vector);
}

/// The name of a promotion piece in move notation (empty when none).
pub open spec fn promotion_name(p: Option<Piece>) -> Seq<char> {
    match p {
        Some(q) => seq![piece_char(q)],
        None => Seq::empty(),
    }
}

/// The long algebraic name of a move, such as `e2e4` or `e7e8q`.
pub open spec fn move_name(m: u16) -> Seq<char> {
    square_name(move_from(m) as int) + square_name(move_to(m) as int) + promotion_name(
        move_promotion(m),
    )
}

/// The promotion piece named after the two squares, if any.
pub open spec fn parsed_promotion(s: Seq<char>) -> Option<Piece> {
    match spec_str_get(s, 4, 5) {
        Some(t) => if t.len() > 0 {
            piece_of_char(t[0])
        } else {
            None
        },
        None => None,
    }
}

/// The move that `s` names in long algebraic notation: two squares and an
/// optional promotion letter; a promotion to king or pawn is refused.
pub open spec fn spec_parse_move(s: Seq<char>) -> Option<BoardMove> {
    let promo = parsed_promotion(s);
    if promo == Some(Piece::King) || promo == Some(Piece::Pawn) {
        None
    } else {
        match (
            match spec_str_get(s, 0, 2) {
                Some(t) => spec_parse_square(t),
                None => None,
            },
            match spec_str_get(s, 2, 4) {
                Some(t) => spec_parse_square(t),
                None => None,
            },
        ) {
            (Some(f), Some(t)) => Some(encode_move(f, t, promo)),
            _ => None,
        }
    }
}

/// Parses a move in long algebraic notation (`e2e4`, `e7e8q`).
pub fn parse(s: &str) -> (r: Option<BoardMove>)
    ensures
        r == spec_parse_move(s@),
{
    let from = str_get(s, 0, 2);
    let to = str_get(s, 2, 4);
    let promotion = match str_get(s, 4, 5) {
        Some(t) => if t.unicode_len() > 0 {
            Piece::from_char(t.get_char(0))
        } else {
            None
        },
        None => None,
    };
    match promotion {
        Some(Piece::King) | Some(Piece::Pawn) => {
            return None;
        },
        _ => {},
    }
    let f = match from {
        Some(t) => crate::square::parse(t),
        None => None,
    };
    let g = match to {
        Some(t) => crate::square::parse(t),
        None => None,
    };
    match (f, g) {
        (Some(f), Some(g)) => Some(new(f, g, promotion)),
        _ => None,
    }
}

/// The long algebraic name of a move.
pub fn unparse(m: BoardMove) -> (r: String)
    ensures
        r@ == move_name(m),
{
    let mut r = crate::square::unparse(get_from(m));
    let to = crate::square::unparse(get_to(m));
    crate::text::push_str(&mut r, to.as_str());
    match get_promotion(m) {
        Some(p) => crate::text::push_char(&mut r, p.to_char()),
        None => {},
    }
    assert(r@ =~= move_name(m));
    r
}

} // verus!
