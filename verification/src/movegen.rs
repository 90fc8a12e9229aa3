use vstd::prelude::*;
use crate::pieces::{Piece, Color, ColoredPiece, opponent};
use crate::board_move::{BoardMove, move_from, move_to, move_promotion, get_from, get_to, get_promotion, encode_move, regular, promoting};
use crate::rules::{
    Board, attacks, attacked, path_clear, step, file_of, rank_of, square_at, abs, sign, max, pawn_dir,
    king_square, king_square_from, king_on, board_after, landing_piece, bit_set, ep_victim,
    castle_corner, castle_middle, absdiff, promotion_rank, pawn_start_rank,
};

verus! {

/// Whether the squares strictly between `(fx, fy)` and `k` steps along
/// direction `(dx, dy)` are empty.
pub fn path_clear_on(b: &[Option<ColoredPiece>; 64], fx: i32, fy: i32, dx: i32, dy: i32, k: i32) -> (r: bool)
    requires
        0 <= fx < 8,
        0 <= fy < 8,
        -1 <= dx <= 1,
        -1 <= dy <= 1,
        0 <= k <= 8,
        0 <= step(fx as int, k as int, dx as int) < 8,
        0 <= step(fy as int, k as int, dy as int) < 8,
    ensures
        r == path_clear(b@, fx as int, fy as int, dx as int, dy as int, k as int),
{
    let mut j: i32 = 1;
    while j < k
        invariant
            0 <= fx < 8,
            0 <= fy < 8,
            -1 <= dx <= 1,
            -1 <= dy <= 1,
            0 <= k <= 8,
            0 <= step(fx as int, k as int, dx as int) < 8,
            0 <= step(fy as int, k as int, dy as int) < 8,
            1 <= j,
            j <= k || k == 0,
            forall|i: int| 1 <= i < j ==> (#[trigger] b@[square_at(step(fx as int, i, dx as int), step(fy as int, i, dy as int))]) is None,
        decreases k - j,
    {
        let x = if dx > 0 {
            fx + j
        } else if dx < 0 {
            fx - j
        } else {
            fx
        };
        let y = if dy > 0 {
            fy + j
        } else if dy < 0 {
            fy - j
        } else {
            fy
        };
        let s = (x + 8 * y) as usize;
        if b[s].is_some() {
            assert(!path_clear(b@, fx as int, fy as int, dx as int, dy as int, k as int)) by {
                assert(b@[square_at(step(fx as int, j as int, dx as int), step(fy as int, j as int, dy as int))] is Some);
            }
            return false;
        }
        j = j + 1;
    }
    true
}

/// Whether a piece of color `c` on `from` attacks `to` on board `b`.
pub fn attacks_on(b: &[Option<ColoredPiece>; 64], p: Piece, c: Color, from: u8, to: u8) -> (r: bool)
    requires
        from < 64,
        to < 64,
    ensures
        r == attacks(b@, p, c, from as int, to as int),
{
    let fx = (from % 8) as i32;
    let fy = (from / 8) as i32;
    let dx = (to % 8) as i32 - fx;
    let dy = (to / 8) as i32 - fy;
    let adx = if dx < 0 {
        -dx
    } else {
        dx
    };
    let ady = if dy < 0 {
        -dy
    } else {
        dy
    };
    let sx: i32 = if dx < 0 {
        -1
    } else if dx > 0 {
        1
    } else {
        0
    };
    let sy: i32 = if dy < 0 {
        -1
    } else if dy > 0 {
        1
    } else {
        0
    };
    let k = if adx < ady {
        ady
    } else {
        adx
    };
    let straight = (dx == 0) != (dy == 0);
    let diagonal = dx != 0 && adx == ady;
    proof {
        assert(step(fx as int, k as int, sx as int) == (to % 8) as int || !(straight || diagonal));
        assert(step(fy as int, k as int, sy as int) == (to / 8) as int || !(straight || diagonal));
    }
    match p {
        Piece::Knight => (adx == 1 && ady == 2) || (adx == 2 && ady == 1),
        Piece::King => adx <= 1 && ady <= 1 && !(dx == 0 && dy == 0),
        Piece::Pawn => {
            let dir: i32 = match c {
                Color::White => 1,
                Color::Black => -1,
            };
            adx == 1 && dy == dir
        },
        Piece::Rook => straight && path_clear_on(b, fx, fy, sx, sy, k),
        Piece::Bishop => diagonal && path_clear_on(b, fx, fy, sx, sy, k),
        Piece::Queen => (straight || diagonal) && path_clear_on(b, fx, fy, sx, sy, k),
    }
}

/// Whether some piece of color `c` attacks square `t` on board `b`.
pub fn attacked_on(b: &[Option<ColoredPiece>; 64], t: u8, c: Color) -> (r: bool)
    requires
        t < 64,
    ensures
        r == attacked(b@, t as int, c),
{
    let mut s: u8 = 0;
    while s < 64
        invariant
            s <= 64,
            t < 64,
            forall|s2: int| 0 <= s2 < s ==> !((#[trigger] b@[s2]) is Some && b@[s2].unwrap().1 == c && attacks(b@, b@[s2].unwrap().0, c, s2, t as int)),
        decreases 64 - s,
    {
        if let Some((p, pc)) = b[s as usize] {
            if pc == c && attacks_on(b, p, c, s, t) {
                assert(b@[s as int] is Some);
                return true;
            }
        }
        s = s + 1;
    }
    proof {
        if attacked(b@, t as int, c) {
            let w = choose|w: int| 0 <= w < 64 && (#[trigger] b@[w]) is Some && b@[w].unwrap().1 == c && attacks(b@, b@[w].unwrap().0, c, w, t as int);
            assert(!(b@[w] is Some && b@[w].unwrap().1 == c && attacks(b@, b@[w].unwrap().0, c, w, t as int)));
        }
    }
    false
}

/// The lowest square holding a king of color `c` (64 if none).
pub fn king_square_on(b: &[Option<ColoredPiece>; 64], c: Color) -> (r: u8)
    ensures
        r as int == king_square(b@, c),
        r <= 64,
        r < 64 ==> b@[r as int] == Some((Piece::King, c)),
{
    let mut s: u8 = 0;
    while s < 64
        invariant
            s <= 64,
            king_square(b@, c) == king_square_from(b@, c, s as int),
        decreases 64 - s,
    {
        if let Some((Piece::King, pc)) = b[s as usize] {
            if pc == c {
                return s;
            }
        }
        s = s + 1;
    }
    64
}

/// Exactly the square a pawn capturing en passant removes, as the move code
/// computes it.
pub fn ep_victim_square(from: u8, to: u8) -> (r: u8)
    requires
        from < 64,
        to < 64,
    ensures
        r as int == ep_victim(from as int, to as int),
        r < 64,
{
    crate::square::from_position(to % 8, from / 8)
}

/// The corner a castling rook comes from.
pub fn castle_corner_square(from: u8, to: u8) -> (r: u8)
    requires
        from < 64,
        to < 64,
    ensures
        r as int == castle_corner(from as int, to as int),
        r < 64,
{
    let tx = to % 8;
    let hi = tx >> 2u8;
    assert(hi == (if tx >= 4 { 1u8 } else { 0u8 })) by (bit_vector)
        requires
            tx < 8,
            hi == tx >> 2u8,
    ;
    crate::square::from_position(hi * 7, from / 8)
}

/// Whether a pawn move must name a promotion piece to be carried out.
pub open spec fn promotion_named(b: Board, m: u16) -> bool {
    (b[move_from(m) as int].unwrap().0 == Piece::Pawn && (rank_of(move_to(m) as int) == 7 || rank_of(
        move_to(m) as int,
    ) == 0)) ==> move_promotion(m) is Some
}

/// The board after a move, computed on a copy.
pub fn board_after_on(b: &[Option<ColoredPiece>; 64], ep: u64, m: BoardMove) -> (r: [Option<ColoredPiece>; 64])
    requires
        b@[move_from(m) as int] is Some,
        promotion_named(b@, m),
    ensures
        r@ == board_after(b@, ep, m),
{
    let from = get_from(m);
    let to = get_to(m);
    let (p, c) = b[from as usize].unwrap();
    let mut r = *b;
    r[from as usize] = None;
    let landing = if p == Piece::Pawn {
        if to / 8 == 7 || to / 8 == 0 {
            (get_promotion(m).unwrap(), c)
        } else {
            (Piece::Pawn, c)
        }
    } else {
        (p, c)
    };
    r[to as usize] = Some(landing);
    if p == Piece::Pawn && (ep & (1u64 << to)) != 0 {
        let v = ep_victim_square(from, to);
        r[v as usize] = None;
    }
    let diff = if from > to {
        from - to
    } else {
        to - from
    };
    if p == Piece::King && diff == 2 {
        let corner = castle_corner_square(from, to);
        r[corner as usize] = None;
        r[((from + to) / 2) as usize] = Some((Piece::Rook, c));
    }
    proof {
        assert(r@ =~= board_after(b@, ep, m));
    }
    r
}

/// Whether a piece of color `c` stands on `t`.
pub open spec fn held_by(b: Board, t: int, c: Color) -> bool {
    b[t] is Some && b[t].unwrap().1 == c
}

/// Where a pawn of color `c` on `s` may go, ignoring its king: diagonally
/// forward onto an opposing piece or the en-passant square, one step
/// forward onto an empty square, or two from its start rank over empty
/// squares; never onto a piece of its own.
pub open spec fn pawn_reach(b: Board, ep: u64, c: Color, s: int, t: int) -> bool {
    let ahead = s + 8 * pawn_dir(c);
    let capture = attacks(b, Piece::Pawn, c, s, t) && (held_by(b, t, opponent(c)) || bit_set(ep, t));
    let single = t == ahead && b[t] is None;
    let double = rank_of(s) == pawn_start_rank(c) && b[ahead] is None && t == s + 16 * pawn_dir(c) && b[t] is None;
    (capture || single || double) && !held_by(b, t, c)
}

/// Where a piece `p` of color `c` on `s` may go, ignoring its king (kings
/// without castling).
pub open spec fn piece_reach(b: Board, ep: u64, p: Piece, c: Color, s: int, t: int) -> bool {
    if p == Piece::Pawn {
        pawn_reach(b, ep, c, s, t)
    } else {
        attacks(b, p, c, s, t) && !held_by(b, t, c)
    }
}

/// The moves of the piece on `s` to the targets below `t`, in order; a
/// promoting pawn's targets each come with queen, rook, bishop and knight.
pub open spec fn reach_moves(b: Board, ep: u64, p: Piece, c: Color, s: int, t: int, promote: bool) -> Seq<u16>
    decreases t,
{
    if t <= 0 {
        Seq::empty()
    } else {
        reach_moves(b, ep, p, c, s, t - 1, promote) + if piece_reach(b, ep, p, c, s, t - 1) {
            if promote {
                seq![
                    encode_move(s as u8, (t - 1) as u8, Some(Piece::Queen)),
                    encode_move(s as u8, (t - 1) as u8, Some(Piece::Rook)),
                    encode_move(s as u8, (t - 1) as u8, Some(Piece::Bishop)),
                    encode_move(s as u8, (t - 1) as u8, Some(Piece::Knight)),
                ]
            } else {
                seq![encode_move(s as u8, (t - 1) as u8, None)]
            }
        } else {
            Seq::empty()
        }
    }
}

/// Whether the piece on `s` belongs to a group: pieces `p` of color `c`,
/// and for pawns those on (or, with `promoting` false, off) the promotion
/// rank.
pub open spec fn in_group(b: Board, p: Piece, c: Color, promoting: bool, s: int) -> bool {
    b[s] == Some((p, c)) && (p == Piece::Pawn ==> (rank_of(s) == promotion_rank(c)) == promoting)
}

/// The moves of a group's pieces on the squares below `n`, square by square.
pub open spec fn group_moves(b: Board, ep: u64, p: Piece, c: Color, promoting: bool, n: int) -> Seq<u16>
    decreases n,
{
    if n <= 0 {
        Seq::empty()
    } else {
        group_moves(b, ep, p, c, promoting, n - 1) + if in_group(b, p, c, promoting, n - 1) {
            reach_moves(b, ep, p, c, n - 1, 64, promoting && p == Piece::Pawn)
        } else {
            Seq::empty()
        }
    }
}

/// The moves of color `c` that follow the pieces' movement rules without
/// regard to its king (no castling): promoting pawns, other pawns, knights,
/// bishops, rooks, queens, then kings, each by square, target and promotion.
pub open spec fn pseudo_moves(b: Board, ep: u64, c: Color) -> Seq<u16> {
    group_moves(b, ep, Piece::Pawn, c, true, 64) + group_moves(b, ep, Piece::Pawn, c, false, 64)
        + group_moves(b, ep, Piece::Knight, c, false, 64) + group_moves(b, ep, Piece::Bishop, c, false, 64)
        + group_moves(b, ep, Piece::Rook, c, false, 64) + group_moves(b, ep, Piece::Queen, c, false, 64)
        + group_moves(b, ep, Piece::King, c, false, 64)
}

/// No pawn of color `c` stands on the rank it would step off the board from.
pub open spec fn no_pawn_on_last_rank(b: Board, c: Color) -> bool {
    forall|s: int| 0 <= s < 64 && #[trigger] b[s] == Some((Piece::Pawn, c)) ==> rank_of(s) != (if c == Color::White {
        7int
    } else {
        0int
    })
}

/// Whether the piece `p` of color `c` on `s` may go to `t`.
fn piece_reach_on(b: &[Option<ColoredPiece>; 64], ep: u64, p: Piece, c: Color, s: u8, t: u8) -> (r: bool)
    requires
        s < 64,
        t < 64,
    ensures
        r == piece_reach(b@, ep, p, c, s as int, t as int),
{
    let own = match b[t as usize] {
        Some((_, d)) => d == c,
        None => false,
    };
    if own {
        return false;
    }
    match p {
        Piece::Pawn => {
            let them = match b[t as usize] {
                Some((_, d)) => d != c,
                None => false,
            };
            if attacks_on(b, Piece::Pawn, c, s, t) && (them || (ep & (1u64 << t)) != 0) {
                return true;
            }
            match c {
                Color::White => {
                    if t == s + 8 && b[t as usize].is_none() {
                        return true;
                    }
                    s / 8 == 1 && b[(s + 8) as usize].is_none() && t == s + 16 && b[t as usize].is_none()
                },
                Color::Black => {
                    if t + 8 == s && b[t as usize].is_none() {
                        return true;
                    }
                    s / 8 == 6 && b[(s - 8) as usize].is_none() && t + 16 == s && b[t as usize].is_none()
                },
            }
        },
        _ => attacks_on(b, p, c, s, t),
    }
}

/// Appends the moves of the piece on `s`.
fn append_reach(
    b: &[Option<ColoredPiece>; 64],
    ep: u64,
    p: Piece,
    c: Color,
    s: u8,
    promote: bool,
    moves: &mut Vec<BoardMove>,
)
    requires
        s < 64,
    ensures
        final(moves)@ == old(moves)@ + reach_moves(b@, ep, p, c, s as int, 64, promote),
{
    let mut t: u8 = 0;
    while t < 64
        invariant
            s < 64,
            t <= 64,
            moves@ == old(moves)@ + reach_moves(b@, ep, p, c, s as int, t as int, promote),
        decreases 64 - t,
    {
        if piece_reach_on(b, ep, p, c, s, t) {
            if promote {
                moves.push(promoting(s, t, Piece::Queen));
                moves.push(promoting(s, t, Piece::Rook));
                moves.push(promoting(s, t, Piece::Bishop));
                moves.push(promoting(s, t, Piece::Knight));
            } else {
                moves.push(regular(s, t));
            }
        }
        assert(moves@ =~= old(moves)@ + reach_moves(b@, ep, p, c, s as int, t + 1, promote));
        t = t + 1;
    }
}

/// Appends the moves of a group's pieces.
fn append_group(
    b: &[Option<ColoredPiece>; 64],
    ep: u64,
    p: Piece,
    c: Color,
    promoting: bool,
    moves: &mut Vec<BoardMove>,
)
    ensures
        final(moves)@ == old(moves)@ + group_moves(b@, ep, p, c, promoting, 64),
{
    let mut s: u8 = 0;
    while s < 64
        invariant
            s <= 64,
            moves@ == old(moves)@ + group_moves(b@, ep, p, c, promoting, s as int),
        decreases 64 - s,
    {
        let rank: u8 = match c {
            Color::White => 6,
            Color::Black => 1,
        };
        let member = match b[s as usize] {
            Some((q, d)) => q == p && d == c && (p != Piece::Pawn || (s / 8 == rank) == promoting),
            None => false,
        };
        let ghost before = moves@;
        if member {
            append_reach(b, ep, p, c, s, promoting && p == Piece::Pawn, moves);
        }
        assert(moves@ =~= old(moves)@ + group_moves(b@, ep, p, c, promoting, s + 1));
        s = s + 1;
    }
}

/// The moves of color `c` that follow the pieces' movement rules without
/// regard to its king (see `pseudo_moves`).
pub fn pseudo_legal_moves_on(b: &[Option<ColoredPiece>; 64], ep: u64, c: Color) -> (r: Vec<BoardMove>)
    requires
        no_pawn_on_last_rank(b@, c),
    ensures
        r@ == pseudo_moves(b@, ep, c),
{
    let mut moves: Vec<BoardMove> = Vec::new();
    append_group(b, ep, Piece::Pawn, c, true, &mut moves);
    append_group(b, ep, Piece::Pawn, c, false, &mut moves);
    append_group(b, ep, Piece::Knight, c, false, &mut moves);
    append_group(b, ep, Piece::Bishop, c, false, &mut moves);
    append_group(b, ep, Piece::Rook, c, false, &mut moves);
    append_group(b, ep, Piece::Queen, c, false, &mut moves);
    append_group(b, ep, Piece::King, c, false, &mut moves);
    assert(moves@ =~= pseudo_moves(b@, ep, c));
    moves
}

} // verus!
