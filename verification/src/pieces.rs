use vstd::prelude::*;

verus! {

/// The six kinds of chess pieces. The first four are the pieces a pawn may
/// promote to; their indices are used in the move encoding.
#[derive(Copy, Clone, Debug, PartialEq, Eq, Structural)]
pub enum Piece {
    Knight,
    Bishop,
    Rook,
    Queen,
    Pawn,
    King,
}

/// The two sides.
#[derive(Copy, Clone, Debug, PartialEq, Eq, Structural)]
pub enum Color {
    Black,
    White,
}

/// A piece together with its color.
pub type ColoredPiece = (Piece, Color);

/// Number of piece kinds.
pub const PIECE_COUNT: usize = 6;

/// Number of colors.
pub const COLOR_COUNT: usize = 2;

/// Index of a piece kind: Knight 0, Bishop 1, Rook 2, Queen 3, Pawn 4, King 5.
pub open spec fn piece_index(p: Piece) -> nat {
    match p {
        Piece::Knight => 0,
        Piece::Bishop => 1,
        Piece::Rook => 2,
        Piece::Queen => 3,
        Piece::Pawn => 4,
        Piece::King => 5,
    }
}

/// Index of a color: Black 0, White 1.
pub open spec fn color_index(c: Color) -> nat {
    match c {
        Color::Black => 0,
        Color::White => 1,
    }
}

/// The piece with the given index, if the index names one.
pub open spec fn piece_of_index(i: int) -> Option<Piece> {
    if i == 0 {
        Some(Piece::Knight)
    } else if i == 1 {
        Some(Piece::Bishop)
    } else if i == 2 {
        Some(Piece::Rook)
    } else if i == 3 {
        Some(Piece::Queen)
    } else if i == 4 {
        Some(Piece::Pawn)
    } else if i == 5 {
        Some(Piece::King)
    } else {
        None
    }
}

/// The other side.
pub open spec fn opponent(c: Color) -> Color {
    match c {
        Color::Black => Color::White,
        Color::White => Color::Black,
    }
}

/// The lower-case letter of a piece kind.
pub open spec fn piece_char(p: Piece) -> char {
    match p {
        Piece::Pawn => 'p',
        Piece::Knight => 'n',
        Piece::Bishop => 'b',
        Piece::Rook => 'r',
        Piece::Queen => 'q',
        Piece::King => 'k',
    }
}

/// The piece kind that a lower-case letter names, if any.
pub open spec fn piece_of_char(c: char) -> Option<Piece> {
    if c == 'p' {
        Some(Piece::Pawn)
    } else if c == 'n' {
        Some(Piece::Knight)
    } else if c == 'b' {
        Some(Piece::Bishop)
    } else if c == 'r' {
        Some(Piece::Rook)
    } else if c == 'q' {
        Some(Piece::Queen)
    } else if c == 'k' {
        Some(Piece::King)
    } else {
        None
    }
}

/// A piece index names a piece exactly when it is below six, and naming is
/// inverse to indexing.
pub proof fn lemma_piece_index_roundtrip(p: Piece, i: int)
    ensures
        piece_of_index(piece_index(p) as int) == Some(p),
        piece_of_index(i) is Some <==> 0 <= i < 6,
        piece_of_index(i) matches Some(q) ==> piece_index(q) == i,
{
}

/// Reading a piece's letter gives the piece back.
pub proof fn lemma_piece_char_roundtrip(p: Piece)
    ensures
        piece_of_char(piece_char(p)) == Some(p),
{
}

impl Color {
    /// The other side (`!color`).
    pub fn not(self) -> (r: Color)
        ensures
            r == opponent(self),
    {
        match self {
            Color::Black => Color::White,
            Color::White => Color::Black,
        }
    }

    /// Index of the color (Black 0, White 1).
    pub fn index(self) -> (r: usize)
        ensures
            r == color_index(self),
    {
        match self {
            Color::Black => 0,
            Color::White => 1,
        }
    }

    /// The color with the given index.
    pub fn from_repr(i: usize) -> (r: Option<Color>)
        ensures
            r == (if i == 0 {
                Some(Color::Black)
            } else if i == 1 {
                Some(Color::White)
            } else {
                None::<Color>
            }),
    {
        if i == 0 {
            Some(Color::Black)
        } else if i == 1 {
            Some(Color::White)
        } else {
            None
        }
    }
}

impl Piece {
    /// Index of the piece kind.
    pub fn index(self) -> (r: usize)
        ensures
            r == piece_index(self),
    {
        match self {
            Piece::Knight => 0,
            Piece::Bishop => 1,
            Piece::Rook => 2,
            Piece::Queen => 3,
            Piece::Pawn => 4,
            Piece::King => 5,
        }
    }

    /// The piece kind with the given index, if any.
    pub fn from_repr(i: usize) -> (r: Option<Piece>)
        ensures
            r == piece_of_index(i as int),
    {
        if i == 0 {
            Some(Piece::Knight)
        } else if i == 1 {
            Some(Piece::Bishop)
        } else if i == 2 {
            Some(Piece::Rook)
        } else if i == 3 {
            Some(Piece::Queen)
        } else if i == 4 {
            Some(Piece::Pawn)
        } else if i == 5 {
            Some(Piece::King)
        } else {
            None
        }
    }

    /// The piece kind named by a lower-case letter (`p n b r q k`).
    pub fn from_char(c: char) -> (r: Option<Piece>)
        ensures
            r == piece_of_char(c),
    {
        match c {
            'p' => Some(Piece::Pawn),
            'n' => Some(Piece::Knight),
            'b' => Some(Piece::Bishop),
            'r' => Some(Piece::Rook),
            'q' => Some(Piece::Queen),
            'k' => Some(Piece::King),
            _ => None,
        }
    }

    /// The lower-case letter of the piece kind.
    pub fn to_char(self) -> (r: char)
        ensures
            r == piece_char(self),
    {
        match self {
            Piece::Pawn => 'p',
            Piece::Knight => 'n',
            Piece::Bishop => 'b',
            Piece::Rook => 'r',
            Piece::Queen => 'q',
            Piece::King => 'k',
        }
    }

    /// The chess symbol of the piece kind (the black glyphs; the side is
    /// shown by color codes elsewhere).
    pub fn to_emoji(&self) -> (r: char)
        ensures
            r == (match *self {
                Piece::Pawn => '\u{265F}',
                Piece::Knight => '\u{265E}',
                Piece::Bishop => '\u{265D}',
                Piece::Rook => '\u{265C}',
                Piece::Queen => '\u{265B}',
                Piece::King => '\u{265A}',
            }),
    {
        match self {
            Piece::Pawn => '\u{265F}',
            Piece::Knight => '\u{265E}',
            Piece::Bishop => '\u{265D}',
            Piece::Rook => '\u{265C}',
            Piece::Queen => '\u{265B}',
            Piece::King => '\u{265A}',
        }
    }

    /// Whether the piece slides along rays (bishop, rook, queen).
    pub fn is_slider(self) -> (r: bool)
        ensures
            r == (self == Piece::Bishop || self == Piece::Rook || self == Piece::Queen),
    {
        match self {
            Piece::Bishop | Piece::Rook | Piece::Queen => true,
            _ => false,
        }
    }
}

} // verus!
