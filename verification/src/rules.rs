use vstd::prelude::*;
use vstd::wrapping::{u8_specs, usize_specs};
use crate::pieces::{Piece, Color, ColoredPiece, piece_index, color_index, opponent};
use crate::board_move::{move_from, move_to, move_promotion, encode_move, promotable};

verus! {

// The rules of chess as this engine plays them, stated over plain values:
// the board is a sequence of 64 optional colored pieces, square = file + 8 * rank.

/// Contents of the 64 squares.
pub type Board = Seq<Option<ColoredPiece>>;

/// What a position holds apart from its move history.
pub struct State {
    pub board: Board,
    pub side: Color,
    /// Castling rights: bit 0 black king side, bit 1 black queen side,
    /// bit 2 white king side, bit 3 white queen side.
    pub castling: u8,
    /// The square that a pawn just skipped by a double step, as a bitboard (0 if none).
    pub ep: u64,
    pub halfmoves: usize,
    pub halfmoves_since_capture: u8,
}

/// What a move leaves in the history so that it can be undone:
/// the move, the captured piece, and the castling rights, en-passant bitboard
/// and halfmove clock before it.
pub type HistoryEntry = (u16, Option<ColoredPiece>, u8, u64, u8);

pub open spec fn file_of(s: int) -> int {
    s % 8
}

pub open spec fn rank_of(s: int) -> int {
    s / 8
}

pub open spec fn square_at(x: int, y: int) -> int {
    x + 8 * y
}

pub open spec fn abs(i: int) -> int {
    if i < 0 {
        -i
    } else {
        i
    }
}

pub open spec fn sign(i: int) -> int {
    if i < 0 {
        -1
    } else if i > 0 {
        1
    } else {
        0
    }
}

pub open spec fn max(a: int, b: int) -> int {
    if a < b {
        b
    } else {
        a
    }
}

/// `start` moved `j` steps in direction `d` (which is -1, 0 or 1).
pub open spec fn step(start: int, j: int, d: int) -> int {
    if d > 0 {
        start + j
    } else if d < 0 {
        start - j
    } else {
        start
    }
}

/// Whether bit `s` of a bitboard is set.
pub open spec fn bit_set(b: u64, s: int) -> bool {
    b & (1u64 << (s as u64)) != 0
}

/// The empty bitboard has no square set.
pub proof fn lemma_no_bits_in_zero()
    ensures
        forall|t: int| 0 <= t < 64 ==> !#[trigger] bit_set(0u64, t),
{
    assert forall|t: int| 0 <= t < 64 implies !#[trigger] bit_set(0u64, t) by {
        let tt = t as u64;
        assert(0u64 & (1u64 << tt) == 0) by (bit_vector);
    }
}

/// The squares strictly between the start and `k` steps along a direction are empty.
pub open spec fn path_clear(b: Board, fx: int, fy: int, dx: int, dy: int, k: int) -> bool {
    forall|j: int| 1 <= j < k ==> (#[trigger] b[square_at(step(fx, j, dx), step(fy, j, dy))]) is None
}

/// Direction in which pawns of a color advance.
pub open spec fn pawn_dir(c: Color) -> int {
    match c {
        Color::White => 1,
        Color::Black => -1,
    }
}

/// Whether a piece of color `c` on `from` attacks `to` on board `b`:
/// knights and kings by their fixed steps, pawns diagonally forward, and the
/// sliders along their lines up to and including the first occupied square.
pub open spec fn attacks(b: Board, p: Piece, c: Color, from: int, to: int) -> bool {
    let fx = file_of(from);
    let fy = rank_of(from);
    let dx = file_of(to) - fx;
    let dy = rank_of(to) - fy;
    let straight = (dx == 0) != (dy == 0);
    let diagonal = dx != 0 && abs(dx) == abs(dy);
    let clear = path_clear(b, fx, fy, sign(dx), sign(dy), max(abs(dx), abs(dy)));
    match p {
        Piece::Knight => (abs(dx) == 1 && abs(dy) == 2) || (abs(dx) == 2 && abs(dy) == 1),
        Piece::King => abs(dx) <= 1 && abs(dy) <= 1 && !(dx == 0 && dy == 0),
        Piece::Pawn => abs(dx) == 1 && dy == pawn_dir(c),
        Piece::Rook => straight && clear,
        Piece::Bishop => diagonal && clear,
        Piece::Queen => (straight || diagonal) && clear,
    }
}

/// Whether some piece of color `c` attacks square `t`.
pub open spec fn attacked(b: Board, t: int, c: Color) -> bool {
    exists|s: int|
        0 <= s < 64 && (#[trigger] b[s]) is Some && b[s].unwrap().1 == c && attacks(b, b[s].unwrap().0, c, s, t)
}

/// Whether a king of color `c` stands on `s`.
pub open spec fn king_on(b: Board, s: int, c: Color) -> bool {
    b[s] == Some((Piece::King, c))
}

/// The lowest square holding a king of color `c` (64 if there is none).
pub open spec fn king_square(b: Board, c: Color) -> int
    decreases 64int,
{
    king_square_from(b, c, 0)
}

pub open spec fn king_square_from(b: Board, c: Color, s: int) -> int
    decreases 64 - s,
{
    if s >= 64 {
        64
    } else if king_on(b, s, c) {
        s
    } else {
        king_square_from(b, c, s + 1)
    }
}

/// Castling-right bit lost when a rook of color `c` leaves or is taken on `s`.
pub open spec fn rook_corner_flag(c: Color, s: int) -> u8 {
    match c {
        Color::Black => if s == 63 {
            1u8
        } else if s == 56 {
            2u8
        } else {
            0u8
        },
        Color::White => if s == 7 {
            4u8
        } else if s == 0 {
            8u8
        } else {
            0u8
        },
    }
}

/// Both castling-right bits of a color.
pub open spec fn color_castle_flags(c: Color) -> u8 {
    match c {
        Color::Black => 3u8,
        Color::White => 12u8,
    }
}

pub open spec fn absdiff(a: int, b: int) -> int {
    abs(a - b)
}

/// The corner a castling rook comes from, for a king moving from `from` to `to`.
pub open spec fn castle_corner(from: int, to: int) -> int {
    square_at(if file_of(to) >= 4 {
        7
    } else {
        0
    }, rank_of(from))
}

/// The square a castling rook goes to.
pub open spec fn castle_middle(from: int, to: int) -> int {
    (from + to) / 2
}

/// Square of the pawn that an en-passant capture removes.
pub open spec fn ep_victim(from: int, to: int) -> int {
    square_at(file_of(to), rank_of(from))
}

/// The piece that lands on the target square.
pub open spec fn landing_piece(p: Piece, c: Color, to: int, promo: Option<Piece>) -> ColoredPiece {
    if p == Piece::Pawn {
        if rank_of(to) == 7 || rank_of(to) == 0 {
            (promo.unwrap(), c)
        } else {
            (Piece::Pawn, c)
        }
    } else {
        (p, c)
    }
}

/// The board after a move (moving piece at `from` of the board).
pub open spec fn board_after(b: Board, ep: u64, m: u16) -> Board {
    let from = move_from(m) as int;
    let to = move_to(m) as int;
    let (p, c) = b[from].unwrap();
    let b1 = b.update(from, None).update(to, Some(landing_piece(p, c, to, move_promotion(m))));
    let b2 = if p == Piece::Pawn && bit_set(ep, to) {
        b1.update(ep_victim(from, to), None)
    } else {
        b1
    };
    if p == Piece::King && absdiff(from, to) == 2 {
        b2.update(castle_corner(from, to), None).update(castle_middle(from, to), Some((Piece::Rook, c)))
    } else {
        b2
    }
}

/// Castling rights after a move.
pub open spec fn castling_after(st: State, m: u16) -> u8 {
    let from = move_from(m) as int;
    let to = move_to(m) as int;
    let (p, c) = st.board[from].unwrap();
    let c1 = match st.board[to] {
        Some((Piece::Rook, cc)) => st.castling & !rook_corner_flag(cc, to),
        _ => st.castling,
    };
    let c2 = if p == Piece::Rook {
        c1 & !rook_corner_flag(c, from)
    } else {
        c1
    };
    if p == Piece::King {
        c2 & !color_castle_flags(c)
    } else {
        c2
    }
}

/// En-passant bitboard after a move.
pub open spec fn ep_after(st: State, m: u16) -> u64 {
    let from = move_from(m) as int;
    let to = move_to(m) as int;
    let (p, c) = st.board[from].unwrap();
    if p == Piece::Pawn && absdiff(from, to) == 16 {
        1u64 << (castle_middle(from, to) as u64)
    } else {
        0u64
    }
}

/// The position after a move.
pub open spec fn state_after(st: State, m: u16) -> State {
    let from = move_from(m) as int;
    let to = move_to(m) as int;
    let (p, c) = st.board[from].unwrap();
    State {
        board: board_after(st.board, st.ep, m),
        side: opponent(st.side),
        castling: castling_after(st, m),
        ep: ep_after(st, m),
        halfmoves: usize_specs::wrapping_add(st.halfmoves, 1),
        halfmoves_since_capture: if st.board[to] is Some || p == Piece::Pawn {
            0
        } else if st.halfmoves_since_capture == 255 {
            255
        } else {
            (st.halfmoves_since_capture + 1) as u8
        },
    }
}

/// The position after passing the turn: the en-passant square is cleared
/// and the halfmove clock advances (saturating).
pub open spec fn null_after(st: State) -> State {
    State {
        side: opponent(st.side),
        ep: 0,
        halfmoves_since_capture: if st.halfmoves_since_capture == 255 {
            255
        } else {
            (st.halfmoves_since_capture + 1) as u8
        },
        ..st
    }
}

/// The history entry that passing the turn leaves.
pub open spec fn null_entry(st: State) -> HistoryEntry {
    (0u16, None, st.castling, st.ep, st.halfmoves_since_capture)
}

/// The position after undoing a pass recorded in `e`.
pub open spec fn null_before(st: State, e: HistoryEntry) -> State {
    State { side: opponent(st.side), ep: e.3, halfmoves_since_capture: e.4, ..st }
}

/// Whether each move of a sequence can be made in turn.
pub open spec fn makeable_sequence(st: State, ms: Seq<u16>) -> bool
    decreases ms.len(),
{
    ms.len() == 0 || (makeable(st, ms[0]) && makeable_sequence(state_after(st, ms[0]), ms.drop_first()))
}

/// The position after a sequence of moves.
pub open spec fn state_after_all(st: State, ms: Seq<u16>) -> State
    decreases ms.len(),
{
    if ms.len() == 0 {
        st
    } else {
        state_after_all(state_after(st, ms[0]), ms.drop_first())
    }
}

/// The history entry a move leaves.
pub open spec fn entry_of(st: State, m: u16) -> HistoryEntry {
    (m, st.board[move_to(m) as int], st.castling, st.ep, st.halfmoves_since_capture)
}

/// The position after undoing the move recorded in `e`.
pub open spec fn state_before(st: State, e: HistoryEntry) -> State {
    let m = e.0;
    let from = move_from(m) as int;
    let to = move_to(m) as int;
    let (p, c) = st.board[to].unwrap();
    let b1 = st.board.update(to, None).update(
        from,
        Some(
            if move_promotion(m) is Some {
                (Piece::Pawn, c)
            } else {
                (p, c)
            },
        ),
    );
    let b2 = match e.1 {
        Some(cp) => b1.update(to, Some(cp)),
        None => b1,
    };
    let b3 = if p == Piece::King && absdiff(from, to) == 2 {
        b2.update(castle_corner(from, to), Some((Piece::Rook, c))).update(castle_middle(from, to), None)
    } else {
        b2
    };
    let b4 = if p == Piece::Pawn && e.1 is None && file_of(to) != file_of(from) {
        b3.update(ep_victim(from, to), Some((Piece::Pawn, opponent(c))))
    } else {
        b3
    };
    State {
        board: b4,
        side: opponent(st.side),
        castling: e.2,
        ep: e.3,
        halfmoves: usize_specs::wrapping_add_signed(st.halfmoves, -1isize),
        halfmoves_since_capture: e.4,
    }
}

/// Whether a move can be made on a position and undone again: a piece
/// stands on the source, a promotion piece is named exactly for a pawn
/// reaching the last rank, an en-passant capture finds the pawn it takes,
/// a castling king finds its rook and an empty square for it, and a
/// diagonal pawn step without capture is an en-passant capture.
pub open spec fn makeable(st: State, m: u16) -> bool {
    let from = move_from(m) as int;
    let to = move_to(m) as int;
    let promo = move_promotion(m);
    &&& st.board.len() == 64
    &&& from != to
    &&& st.board[from] is Some
    &&& {
        let (p, c) = st.board[from].unwrap();
        &&& (p == Piece::Pawn && (rank_of(to) == 7 || rank_of(to) == 0)) ==> (promo matches Some(q)
            && promotable(q))
        &&& p != Piece::Pawn ==> promo is None
        &&& (p == Piece::Pawn && bit_set(st.ep, to)) ==> {
            &&& st.board[to] is None
            &&& file_of(to) != file_of(from)
            &&& st.board[ep_victim(from, to)] == Some((Piece::Pawn, opponent(c)))
        }
        &&& (p == Piece::Pawn && st.board[to] is None && file_of(to) != file_of(from)) ==> bit_set(st.ep, to)
        &&& (p == Piece::Pawn && bit_set(st.ep, to)) ==> (rank_of(to) != 7 && rank_of(to) != 0)
        &&& (p == Piece::King && absdiff(from, to) == 2) ==> {
            &&& st.board[castle_corner(from, to)] == Some((Piece::Rook, c))
            &&& st.board[castle_middle(from, to)] is None
            &&& st.board[to] is None
            &&& castle_corner(from, to) != from
            &&& castle_corner(from, to) != to
            &&& castle_middle(from, to) != from
            &&& castle_middle(from, to) != to
            &&& castle_middle(from, to) != castle_corner(from, to)
            &&& 0 <= castle_corner(from, to) < 64
        }
    }
}

} // verus!

verus! {

/// Undoing a move restores the position it was made on.
pub proof fn lemma_undo_restores(st: State, m: u16)
    requires
        makeable(st, m),
    ensures
        state_before(state_after(st, m), entry_of(st, m)) == st,
{
    let from = move_from(m) as int;
    let to = move_to(m) as int;
    let (p, c) = st.board[from].unwrap();
    let after = state_after(st, m);
    let back = state_before(after, entry_of(st, m));
    assert(0 <= from < 64 && 0 <= to < 64);
    assert(after.board.len() == 64);
    if p == Piece::Pawn && bit_set(st.ep, to) {
        assert(ep_victim(from, to) != to);
        assert(ep_victim(from, to) != from);
    }
    assert(after.board[to] == Some(landing_piece(p, c, to, move_promotion(m))));
    assert(back.board =~= st.board);
    assert(back.halfmoves == st.halfmoves);
}

} // verus!

verus! {

/// Zobrist contribution of square `s`.
pub open spec fn square_term(keys: crate::zobrist::ZobristKeys, b: Board, s: int) -> u64 {
    match b[s] {
        Some((p, c)) => keys.spec_piece_key(color_index(c), piece_index(p), s as nat),
        None => 0,
    }
}

/// Exclusive or of the square contributions of the first `n` squares.
pub open spec fn pieces_hash(keys: crate::zobrist::ZobristKeys, b: Board, n: int) -> u64
    decreases n,
{
    if n <= 0 {
        0
    } else {
        pieces_hash(keys, b, n - 1) ^ square_term(keys, b, n - 1)
    }
}

/// Index of the en-passant key: 0 without an en-passant square, else the
/// file of the lowest set bit plus one.
pub open spec fn ep_key_index(ep: u64) -> int {
    if ep == 0 {
        0
    } else {
        (vstd::std_specs::bits::u64_trailing_zeros(ep) as int % 8) + 1
    }
}

/// The Zobrist hash of a position: the piece keys of all occupied squares,
/// the castling keys of no rights and of the current rights, the en-passant
/// key, and the side key when black is to move.
pub open spec fn position_hash(keys: crate::zobrist::ZobristKeys, st: State) -> u64 {
    pieces_hash(keys, st.board, 64) ^ keys.castling@[0] ^ keys.castling@[st.castling as int]
        ^ keys.en_passant@[ep_key_index(st.ep)] ^ (if st.side == Color::Black {
        keys.side_to_move
    } else {
        0u64
    })
}

/// Changing one square changes the hash by that square's old and new contributions.
pub proof fn lemma_hash_update(
    keys: crate::zobrist::ZobristKeys,
    b: Board,
    s: int,
    v: Option<ColoredPiece>,
    n: int,
)
    requires
        0 <= s < 64,
        b.len() == 64,
        0 <= n <= 64,
    ensures
        pieces_hash(keys, b.update(s, v), n) == (if s < n {
            pieces_hash(keys, b, n) ^ square_term(keys, b, s) ^ square_term(keys, b.update(s, v), s)
        } else {
            pieces_hash(keys, b, n)
        }),
    decreases n,
{
    let b2 = b.update(s, v);
    if n > 0 {
        lemma_hash_update(keys, b, s, v, n - 1);
        let p = pieces_hash(keys, b, n - 1);
        let a = square_term(keys, b, s);
        let a2 = square_term(keys, b2, s);
        let t = square_term(keys, b, n - 1);
        if n - 1 == s {
            assert(p ^ a2 == (p ^ a) ^ a ^ a2) by (bit_vector);
        } else if n - 1 > s {
            assert(square_term(keys, b2, n - 1) == t);
            assert((p ^ a ^ a2) ^ t == (p ^ t) ^ a ^ a2) by (bit_vector);
        } else {
            assert(square_term(keys, b2, n - 1) == t);
        }
    }
}

} // verus!

verus! {

/// Whether the move recorded in `e` can be undone on position `st`: the
/// moved piece stands on the target, the source is empty, and the squares
/// that undoing castling or an en-passant capture refills are free.
pub open spec fn unmakeable(st: State, e: HistoryEntry) -> bool {
    let m = e.0;
    let from = move_from(m) as int;
    let to = move_to(m) as int;
    &&& st.board.len() == 64
    &&& from != to
    &&& st.board[to] is Some
    &&& st.board[from] is None
    &&& e.2 < 16
    &&& {
        let (p, c) = st.board[to].unwrap();
        &&& (p == Piece::King && absdiff(from, to) == 2) ==> {
            &&& castle_corner(from, to) != from
            &&& castle_corner(from, to) != to
            &&& castle_middle(from, to) != from
            &&& castle_middle(from, to) != to
            &&& castle_middle(from, to) != castle_corner(from, to)
            &&& st.board[castle_corner(from, to)] is None
            &&& st.board[castle_middle(from, to)] is Some
        }
        &&& (p == Piece::Pawn && e.1 is None && file_of(to) != file_of(from)) ==> {
            &&& ep_victim(from, to) != to
            &&& st.board[ep_victim(from, to)] is None
        }
    }
}

/// A move that can be made can be undone afterwards.
pub proof fn lemma_made_is_unmakeable(st: State, m: u16)
    requires
        makeable(st, m),
        st.castling < 16,
    ensures
        unmakeable(state_after(st, m), entry_of(st, m)),
{
    let from = move_from(m) as int;
    let to = move_to(m) as int;
    let (p, c) = st.board[from].unwrap();
    let after = state_after(st, m);
    assert(0 <= from < 64 && 0 <= to < 64);
    if p == Piece::Pawn && bit_set(st.ep, to) {
        assert(ep_victim(from, to) != to);
        assert(ep_victim(from, to) != from);
    }
    assert(after.board[to] == Some(landing_piece(p, c, to, move_promotion(m))));
    assert(after.board[from] is None);
}

} // verus!

verus! {

/// Whether a move names its squares and promotion without stray bits and
/// promotes, if at all, to knight, bishop, rook or queen.
pub open spec fn canonical(m: u16) -> bool {
    &&& m == encode_move(move_from(m), move_to(m), move_promotion(m))
    &&& move_promotion(m) matches Some(q) ==> promotable(q)
}

/// The rank from which a pawn of color `c` promotes with its next step.
pub open spec fn promotion_rank(c: Color) -> int {
    match c {
        Color::White => 6,
        Color::Black => 1,
    }
}

/// The rank from which a pawn of color `c` may advance two squares.
pub open spec fn pawn_start_rank(c: Color) -> int {
    match c {
        Color::White => 1,
        Color::Black => 6,
    }
}

/// Where a pawn of color `c` on `from` may go: one step forward onto an
/// empty square, two steps from its start rank over empty squares, or
/// diagonally forward onto an occupied square or the en-passant square.
pub open spec fn pawn_target(st: State, c: Color, from: int, to: int) -> bool {
    let b = st.board;
    let fx = file_of(from);
    let fy = rank_of(from);
    let dx = file_of(to) - fx;
    let dy = rank_of(to) - fy;
    ||| dx == 0 && dy == pawn_dir(c) && b[to] is None
    ||| dx == 0 && dy == 2 * pawn_dir(c) && fy == pawn_start_rank(c) && b[square_at(fx, fy + pawn_dir(c))]
        is None && b[to] is None
    ||| attacks(b, Piece::Pawn, c, from, to) && (b[to] is Some || bit_set(st.ep, to))
}

/// Whether the king of color `c` standing on `from` may castle to `to`: the
/// right is held, the squares between king and rook are empty, and neither
/// the king's square nor the square it passes is attacked.
pub open spec fn castle_target(st: State, c: Color, from: int, to: int) -> bool {
    let b = st.board;
    let them = opponent(c);
    let base = if c == Color::White {
        0int
    } else {
        56int
    };
    let king_side = if c == Color::White {
        4u8
    } else {
        1u8
    };
    let queen_side = if c == Color::White {
        8u8
    } else {
        2u8
    };
    &&& !attacked(b, from, them)
    &&& {
        ||| (to == base + 6 && st.castling & king_side != 0 && b[base + 5] is None && b[base + 6] is None
            && !attacked(b, base + 5, them))
        ||| (to == base + 2 && st.castling & queen_side != 0 && b[base + 1] is None && b[base + 2] is None
            && b[base + 3] is None && !attacked(b, base + 3, them))
    }
}

/// Whether a piece `p` of color `c` on `from` may go to `to`, ignoring
/// whether its own king is left attacked.
pub open spec fn target_ok(st: State, p: Piece, c: Color, from: int, to: int) -> bool {
    if p == Piece::Pawn {
        pawn_target(st, c, from, to)
    } else if p == Piece::King {
        attacks(st.board, p, c, from, to) || castle_target(st, c, from, to)
    } else {
        attacks(st.board, p, c, from, to)
    }
}

/// A move of the side to move that follows the piece's movement rules: its
/// own piece on the source, no own piece on the target, kings moving only
/// from the side's (lowest) king square, and a promotion piece named exactly
/// when a pawn steps off its promotion rank.
pub open spec fn pseudo_legal(st: State, m: u16) -> bool {
    let from = move_from(m) as int;
    let to = move_to(m) as int;
    let c = st.side;
    &&& canonical(m)
    &&& st.board[from] is Some
    &&& st.board[from].unwrap().1 == c
    &&& !(st.board[to] is Some && st.board[to].unwrap().1 == c)
    &&& {
        let p = st.board[from].unwrap().0;
        &&& p == Piece::King ==> from == king_square(st.board, c)
        &&& target_ok(st, p, c, from, to)
        &&& if p == Piece::Pawn && rank_of(from) == promotion_rank(c) {
            move_promotion(m) is Some
        } else {
            move_promotion(m) is None
        }
    }
}

/// The square of the mover's king after a move.
pub open spec fn king_after(st: State, m: u16) -> int {
    if st.board[move_from(m) as int].unwrap().0 == Piece::King {
        move_to(m) as int
    } else {
        king_square(st.board, st.side)
    }
}

/// A pseudo-legal move that does not leave the mover's king attacked.
pub open spec fn legal(st: State, m: u16) -> bool {
    &&& pseudo_legal(st, m)
    &&& !attacked(board_after(st.board, st.ep, m), king_after(st, m), opponent(st.side))
}

/// The candidate promotion of slot `j` at a source/target pair: none, then
/// queen, rook, bishop, knight.
pub open spec fn slot_promotion(j: int) -> Option<Piece> {
    if j == 1 {
        Some(Piece::Queen)
    } else if j == 2 {
        Some(Piece::Rook)
    } else if j == 3 {
        Some(Piece::Bishop)
    } else if j == 4 {
        Some(Piece::Knight)
    } else {
        None
    }
}

/// Legal moves between two squares among the first `j` promotion slots.
pub open spec fn moves_between(st: State, from: int, to: int, j: int) -> Seq<u16>
    decreases j,
{
    if j <= 0 {
        Seq::empty()
    } else {
        let prev = moves_between(st, from, to, j - 1);
        let m = encode_move(from as u8, to as u8, slot_promotion(j - 1));
        if legal(st, m) {
            prev.push(m)
        } else {
            prev
        }
    }
}

/// Legal moves from `from` to the targets below `t`.
pub open spec fn moves_from(st: State, from: int, t: int) -> Seq<u16>
    decreases t,
{
    if t <= 0 {
        Seq::empty()
    } else {
        moves_from(st, from, t - 1) + moves_between(st, from, t - 1, 5)
    }
}

/// The piece kinds in the order the move list takes them: pawn, knight,
/// bishop, rook, queen, king.
pub open spec fn kind_at(i: int) -> Piece {
    if i == 0 {
        Piece::Pawn
    } else if i == 1 {
        Piece::Knight
    } else if i == 2 {
        Piece::Bishop
    } else if i == 3 {
        Piece::Rook
    } else if i == 4 {
        Piece::Queen
    } else {
        Piece::King
    }
}

/// Whether square `s` holds a piece of kind `k`.
pub open spec fn holds_kind(st: State, s: int, k: Piece) -> bool {
    st.board[s] is Some && st.board[s].unwrap().0 == k
}

/// Legal moves from the sources below `f` that hold a piece of kind `k`.
pub open spec fn moves_upto(st: State, f: int, k: Piece) -> Seq<u16>
    decreases f,
{
    if f <= 0 {
        Seq::empty()
    } else {
        moves_upto(st, f - 1, k) + if holds_kind(st, f - 1, k) {
            moves_from(st, f - 1, 64)
        } else {
            Seq::empty()
        }
    }
}

/// Legal moves of the first `n` kinds, kind after kind.
pub open spec fn moves_of_kinds(st: State, n: int) -> Seq<u16>
    decreases n,
{
    if n <= 0 {
        Seq::empty()
    } else {
        moves_of_kinds(st, n - 1) + moves_upto(st, 64, kind_at(n - 1))
    }
}

/// All legal moves of the side to move: the pawn moves first, then those of
/// the knights, bishops, rooks, queens and the king; within a kind ordered
/// by source square, target square, and promotion (queen, rook, bishop,
/// knight).
pub open spec fn legal_moves(st: State) -> Seq<u16> {
    moves_of_kinds(st, 6)
}

} // verus!

verus! {

/// The source square holds a piece of the side to move that may move from
/// there (a king only from the side's lowest king square).
pub open spec fn source_ok(st: State, from: int) -> bool {
    &&& st.board[from] is Some
    &&& st.board[from].unwrap().1 == st.side
    &&& st.board[from].unwrap().0 == Piece::King ==> from == king_square(st.board, st.side)
}

/// The target is not held by the mover's side and the piece may go there.
pub open spec fn pair_ok(st: State, from: int, to: int) -> bool {
    &&& source_ok(st, from)
    &&& !(st.board[to] is Some && st.board[to].unwrap().1 == st.side)
    &&& target_ok(st, st.board[from].unwrap().0, st.side, from, to)
}

/// Whether promotion slot `j` fits a move from `from`.
pub open spec fn slot_fits(st: State, from: int, j: int) -> bool {
    if st.board[from].unwrap().0 == Piece::Pawn && rank_of(from) == promotion_rank(st.side) {
        slot_promotion(j) is Some
    } else {
        slot_promotion(j) is None
    }
}

/// The move of slot `j` between two squares is pseudo-legal exactly when the
/// pair is allowed and the slot's promotion fits.
pub proof fn lemma_slot_pseudo_legal(st: State, from: int, to: int, j: int)
    requires
        0 <= from < 64,
        0 <= to < 64,
        0 <= j < 5,
    ensures
        pseudo_legal(st, encode_move(from as u8, to as u8, slot_promotion(j))) == (pair_ok(st, from, to)
            && slot_fits(st, from, j)),
        move_from(encode_move(from as u8, to as u8, slot_promotion(j))) == from,
        move_to(encode_move(from as u8, to as u8, slot_promotion(j))) == to,
        move_promotion(encode_move(from as u8, to as u8, slot_promotion(j))) == slot_promotion(j),
{
    crate::board_move::lemma_encode_decode(from as u8, to as u8, slot_promotion(j));
}

/// No legal move leaves a square that fails `source_ok`.
pub proof fn lemma_moves_from_empty(st: State, from: int, t: int)
    requires
        0 <= from < 64,
        t <= 64,
        !source_ok(st, from),
    ensures
        moves_from(st, from, t) == Seq::<u16>::empty(),
    decreases t,
{
    if t > 0 {
        lemma_moves_from_empty(st, from, t - 1);
        lemma_moves_between_empty(st, from, t - 1, 5);
        assert(moves_from(st, from, t) =~= Seq::<u16>::empty());
    }
}

/// No legal move joins a pair that fails `pair_ok`.
pub proof fn lemma_moves_between_empty(st: State, from: int, to: int, j: int)
    requires
        0 <= from < 64,
        0 <= to < 64,
        j <= 5,
        !pair_ok(st, from, to),
    ensures
        moves_between(st, from, to, j) == Seq::<u16>::empty(),
    decreases j,
{
    if j > 0 {
        lemma_moves_between_empty(st, from, to, j - 1);
        lemma_slot_pseudo_legal(st, from, to, j - 1);
    }
}

/// A pawn that pseudo-legally reaches the last rank names a promotion piece.
pub proof fn lemma_pseudo_legal_names_promotion(st: State, m: u16)
    requires
        pseudo_legal(st, m),
        0 <= move_to(m) < 64,
    ensures
        (st.board[move_from(m) as int].unwrap().0 == Piece::Pawn && (rank_of(move_to(m) as int) == 7
            || rank_of(move_to(m) as int) == 0)) ==> move_promotion(m) is Some,
{
}

} // verus!

verus! {

/// Each side has exactly one king.
pub open spec fn kings_unique(b: Board) -> bool {
    &&& king_square(b, Color::White) < 64
    &&& king_square(b, Color::Black) < 64
    &&& forall|s: int| 0 <= s < 64 && (#[trigger] b[s]) is Some && b[s].unwrap().0 == Piece::King ==> s
        == king_square(b, b[s].unwrap().1)
}

/// Each castling right is backed by its king and rook on their home squares.
pub open spec fn castling_backed(st: State) -> bool {
    let b = st.board;
    &&& st.castling & 4 != 0 ==> b[4] == Some((Piece::King, Color::White)) && b[7] == Some((Piece::Rook, Color::White))
    &&& st.castling & 8 != 0 ==> b[4] == Some((Piece::King, Color::White)) && b[0] == Some((Piece::Rook, Color::White))
    &&& st.castling & 1 != 0 ==> b[60] == Some((Piece::King, Color::Black)) && b[63] == Some((Piece::Rook, Color::Black))
    &&& st.castling & 2 != 0 ==> b[60] == Some((Piece::King, Color::Black)) && b[56] == Some((Piece::Rook, Color::Black))
}

/// Every en-passant bit marks an empty square just behind a pawn of the
/// side that is not to move, on the rank where a double step leaves it.
pub open spec fn ep_backed(st: State) -> bool {
    forall|t: int|
        0 <= t < 64 && #[trigger] bit_set(st.ep, t) ==> {
            &&& st.board[t] is None
            &&& if st.side == Color::White {
                rank_of(t) == 5 && st.board[t - 8] == Some((Piece::Pawn, Color::Black))
            } else {
                rank_of(t) == 2 && st.board[t + 8] == Some((Piece::Pawn, Color::White))
            }
        }
}

/// A position that play can reach: one king per side, the side that just
/// moved not in check, castling rights and the en-passant square backed by
/// the pieces they refer to.
pub open spec fn consistent(st: State) -> bool {
    &&& st.board.len() == 64
    &&& st.castling < 16
    &&& kings_unique(st.board)
    &&& !attacked(st.board, king_square(st.board, opponent(st.side)), st.side)
    &&& castling_backed(st)
    &&& ep_backed(st)
}

/// A king's square where it is the only king of its color.
pub proof fn lemma_king_square_at(b: Board, c: Color, s: int)
    requires
        0 <= s < 64,
        b.len() == 64,
        b[s] == Some((Piece::King, c)),
        forall|t: int| 0 <= t < 64 && b[t] == Some((Piece::King, c)) ==> t == s,
    ensures
        king_square(b, c) == s,
{
    lemma_king_square_from(b, c, s, 0);
}

proof fn lemma_king_square_from(b: Board, c: Color, s: int, i: int)
    requires
        0 <= i <= s < 64,
        b.len() == 64,
        b[s] == Some((Piece::King, c)),
        forall|t: int| 0 <= t < 64 && b[t] == Some((Piece::King, c)) ==> t == s,
    ensures
        king_square_from(b, c, i) == s,
    decreases s - i,
{
    if i < s {
        assert(!king_on(b, i, c));
        lemma_king_square_from(b, c, s, i + 1);
    }
}

/// The lowest king square holds a king, or there is none at all.
pub proof fn lemma_king_square_holds(b: Board, c: Color, i: int)
    requires
        0 <= i <= 64,
        b.len() == 64,
    ensures
        king_square_from(b, c, i) < 64 ==> b[king_square_from(b, c, i)] == Some((Piece::King, c)),
        king_square_from(b, c, i) <= 64,
        king_square_from(b, c, i) >= i,
    decreases 64 - i,
{
    if i < 64 && !king_on(b, i, c) {
        lemma_king_square_holds(b, c, i + 1);
    }
}

/// In a consistent position every legal move can be made and undone.
pub proof fn lemma_legal_makeable(st: State, m: u16)
    requires
        consistent(st),
        legal(st, m),
    ensures
        makeable(st, m),
{
    let from = move_from(m) as int;
    let to = move_to(m) as int;
    let (p, c) = st.board[from].unwrap();
    assert(0 <= from < 64 && 0 <= to < 64);
    lemma_king_square_holds(st.board, c, 0);
    if p == Piece::Pawn && bit_set(st.ep, to) {
        assert(st.board[to] is None);
    }
    if p == Piece::King && absdiff(from, to) == 2 {
        assert(castle_target(st, c, from, to));
        if c == Color::White {
            if st.castling & 4 != 0 {
                lemma_king_square_at(st.board, c, 4);
            }
            if st.castling & 8 != 0 {
                lemma_king_square_at(st.board, c, 4);
            }
        } else {
            if st.castling & 1 != 0 {
                lemma_king_square_at(st.board, c, 60);
            }
            if st.castling & 2 != 0 {
                lemma_king_square_at(st.board, c, 60);
            }
        }
    }
}

} // verus!
