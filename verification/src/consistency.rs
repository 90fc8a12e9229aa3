use vstd::prelude::*;
use crate::pieces::{Piece, Color, opponent};
use crate::board_move::{move_from, move_to, move_promotion};
use crate::rules::{State, Board, bit_set, ep_victim, absdiff, castle_corner, castle_middle, makeable, board_after, landing_piece, pseudo_legal, attacked, attacks, legal, consistent, state_after, king_square, king_after, kings_unique, castling_backed, ep_backed, castling_after, rook_corner_flag, color_castle_flags, ep_after, file_of, rank_of, square_at, pawn_dir, target_ok, pawn_target, castle_target, lemma_king_square_at, lemma_king_square_holds, lemma_legal_makeable};

verus! {

// Legal moves keep a position consistent: the proof follows the squares a
// move touches and the bits of the castling rights it keeps.

/// Whether a move writes square `s`: its source and target, the pawn an
/// en-passant capture removes, and the rook squares of castling.
pub open spec fn touched(st: State, m: u16, s: int) -> bool {
    let from = move_from(m) as int;
    let to = move_to(m) as int;
    let p = st.board[from].unwrap().0;
    ||| s == from
    ||| s == to
    ||| (p == Piece::Pawn && bit_set(st.ep, to) && s == ep_victim(from, to))
    ||| (p == Piece::King && absdiff(from, to) == 2 && (s == castle_corner(from, to) || s == castle_middle(
        from,
        to,
    )))
}

/// What the board looks like after a move that can be made.
pub proof fn lemma_board_after_squares(st: State, m: u16)
    requires
        makeable(st, m),
    ensures
        ({
            let from = move_from(m) as int;
            let to = move_to(m) as int;
            let (p, c) = st.board[from].unwrap();
            let b2 = board_after(st.board, st.ep, m);
            &&& b2.len() == 64
            &&& b2[from] is None
            &&& b2[to] == Some(landing_piece(p, c, to, move_promotion(m)))
            &&& (p == Piece::Pawn && bit_set(st.ep, to)) ==> b2[ep_victim(from, to)] is None
            &&& (p == Piece::King && absdiff(from, to) == 2) ==> {
                &&& b2[castle_corner(from, to)] is None
                &&& b2[castle_middle(from, to)] == Some((Piece::Rook, c))
            }
            &&& forall|s: int| 0 <= s < 64 && !touched(st, m, s) ==> #[trigger] b2[s] == st.board[s]
        }),
{
    let from = move_from(m) as int;
    let to = move_to(m) as int;
    let (p, c) = st.board[from].unwrap();
    assert(0 <= from < 64 && 0 <= to < 64);
    if p == Piece::Pawn && bit_set(st.ep, to) {
        assert(ep_victim(from, to) != to);
        assert(ep_victim(from, to) != from);
        assert(0 <= ep_victim(from, to) < 64);
    }
}

/// A pseudo-legal move onto an occupied square attacks that square.
pub proof fn lemma_capture_attacked(st: State, m: u16)
    requires
        pseudo_legal(st, m),
        st.board[move_to(m) as int] is Some,
    ensures
        attacked(st.board, move_to(m) as int, st.side),
{
    let from = move_from(m) as int;
    let to = move_to(m) as int;
    let b = st.board;
    assert(0 <= from < 64);
    let p = b[from].unwrap().0;
    assert(attacks(b, p, st.side, from, to));
}

/// After a legal move each side still has exactly one king: the mover's
/// stands where the move leaves it and the other side's has not moved.
pub proof fn lemma_kings_after(st: State, m: u16)
    requires
        consistent(st),
        legal(st, m),
    ensures
        kings_unique(board_after(st.board, st.ep, m)),
        king_square(board_after(st.board, st.ep, m), st.side) == king_after(st, m),
        king_square(board_after(st.board, st.ep, m), opponent(st.side)) == king_square(
            st.board,
            opponent(st.side),
        ),
        move_to(m) as int != king_square(st.board, opponent(st.side)),
{
    let b = st.board;
    let c = st.side;
    let them = opponent(c);
    let from = move_from(m) as int;
    let to = move_to(m) as int;
    let (p, pc) = b[from].unwrap();
    let promo = move_promotion(m);
    lemma_legal_makeable(st, m);
    lemma_board_after_squares(st, m);
    let b2 = board_after(b, st.ep, m);
    lemma_king_square_holds(b, c, 0);
    lemma_king_square_holds(b, them, 0);
    let kc = king_square(b, c);
    let ko = king_square(b, them);
    assert(pc == c);
    assert(0 <= from < 64 && 0 <= to < 64);
    if b[to] is Some {
        lemma_capture_attacked(st, m);
    }
    assert(to != ko);
    assert(landing_piece(p, c, to, promo).1 == c);
    assert(p != Piece::King ==> landing_piece(p, c, to, promo).0 != Piece::King);
    let kn = king_after(st, m);
    assert(b[kc] is Some && b[kc].unwrap().0 == Piece::King);
    assert(b[ko] is Some && b[ko].unwrap().0 == Piece::King);
    assert(b2[kn] == Some((Piece::King, c))) by {
        if p != Piece::King {
            assert(!touched(st, m, kc));
        }
    }
    assert forall|t: int| 0 <= t < 64 && b2[t] == Some((Piece::King, c)) implies t == kn by {
        if !touched(st, m, t) {
            assert(b[t] is Some && b[t].unwrap().0 == Piece::King);
        }
    }
    lemma_king_square_at(b2, c, kn);
    assert(!touched(st, m, ko));
    assert(b2[ko] == Some((Piece::King, them)));
    assert forall|t: int| 0 <= t < 64 && b2[t] == Some((Piece::King, them)) implies t == ko by {
        if !touched(st, m, t) {
            assert(b[t] is Some && b[t].unwrap().0 == Piece::King);
        }
    }
    lemma_king_square_at(b2, them, ko);
    assert forall|s: int|
        0 <= s < 64 && (#[trigger] b2[s]) is Some && b2[s].unwrap().0 == Piece::King implies s
        == king_square(b2, b2[s].unwrap().1) by {
        if b2[s].unwrap().1 == c {
            assert(b2[s] == Some((Piece::King, c)));
        } else {
            assert(b2[s] == Some((Piece::King, them)));
        }
    }
}

/// A castling bit that survives clearing three masks was set before and is
/// in none of the masks.
proof fn lemma_kept_bit(a: u8, f1: u8, f2: u8, f3: u8, k: u8)
    requires
        k == 1 || k == 2 || k == 4 || k == 8,
        ((a & !f1) & !f2) & !f3 & k != 0,
    ensures
        a & k != 0,
        f1 & k == 0,
        f2 & k == 0,
        f3 & k == 0,
{
    assert(((a & !f1) & !f2) & !f3 & k != 0 && (k == 1 || k == 2 || k == 4 || k == 8) ==> a & k != 0
        && f1 & k == 0 && f2 & k == 0 && f3 & k == 0) by (bit_vector);
}

/// What a castling right that survives a move says about the move.
pub proof fn lemma_castling_after_bits(st: State, m: u16, k: u8)
    requires
        st.board[move_from(m) as int] is Some,
        k == 1 || k == 2 || k == 4 || k == 8,
        castling_after(st, m) & k != 0,
    ensures
        st.castling & k != 0,
        ({
            let from = move_from(m) as int;
            let to = move_to(m) as int;
            let (p, c) = st.board[from].unwrap();
            &&& p == Piece::King ==> color_castle_flags(c) & k == 0
            &&& p == Piece::Rook ==> rook_corner_flag(c, from) & k == 0
            &&& st.board[to] matches Some((Piece::Rook, cc)) ==> rook_corner_flag(cc, to) & k == 0
        }),
{
    let from = move_from(m) as int;
    let to = move_to(m) as int;
    let (p, c) = st.board[from].unwrap();
    let f1: u8 = match st.board[to] {
        Some((Piece::Rook, cc)) => rook_corner_flag(cc, to),
        _ => 0u8,
    };
    let f2: u8 = if p == Piece::Rook {
        rook_corner_flag(c, from)
    } else {
        0u8
    };
    let f3: u8 = if p == Piece::King {
        color_castle_flags(c)
    } else {
        0u8
    };
    let a = st.castling;
    assert(forall|x: u8| #[trigger] (x & !0u8) == x) by (bit_vector);
    assert(castling_after(st, m) == ((a & !f1) & !f2) & !f3);
    lemma_kept_bit(a, f1, f2, f3, k);
}

/// A castling right kept by a legal move still has its king and rook at home.
proof fn lemma_castle_right_kept(st: State, m: u16, k: u8, kh: int, rh: int, cc: Color)
    requires
        consistent(st),
        legal(st, m),
        (k == 4 && kh == 4 && rh == 7 && cc == Color::White) || (k == 8 && kh == 4 && rh == 0 && cc
            == Color::White) || (k == 1 && kh == 60 && rh == 63 && cc == Color::Black) || (k == 2 && kh
            == 60 && rh == 56 && cc == Color::Black),
        castling_after(st, m) & k != 0,
    ensures
        board_after(st.board, st.ep, m)[kh] == Some((Piece::King, cc)),
        board_after(st.board, st.ep, m)[rh] == Some((Piece::Rook, cc)),
{
    let b = st.board;
    let from = move_from(m) as int;
    let to = move_to(m) as int;
    let (p, c) = b[from].unwrap();
    lemma_legal_makeable(st, m);
    lemma_board_after_squares(st, m);
    lemma_kings_after(st, m);
    lemma_castling_after_bits(st, m, k);
    assert(rook_corner_flag(cc, rh) & k != 0 && color_castle_flags(cc) & k != 0) by {
        assert(4u8 & 4u8 != 0 && 8u8 & 8u8 != 0 && 1u8 & 1u8 != 0 && 2u8 & 2u8 != 0) by (bit_vector);
        assert(12u8 & 4u8 != 0 && 12u8 & 8u8 != 0 && 3u8 & 1u8 != 0 && 3u8 & 2u8 != 0) by (bit_vector);
    }
    assert(b[kh] == Some((Piece::King, cc)) && b[rh] == Some((Piece::Rook, cc)));
    assert(0 <= from < 64 && 0 <= to < 64);
    if to == kh {
        assert(kh == king_square(b, cc));
    }
    assert(!touched(st, m, kh));
    assert(!touched(st, m, rh));
}

/// Castling rights that a legal move keeps stay backed by their pieces.
pub proof fn lemma_castling_backed_after(st: State, m: u16)
    requires
        consistent(st),
        legal(st, m),
    ensures
        castling_backed(state_after(st, m)),
        castling_after(st, m) < 16,
{
    let c = castling_after(st, m);
    if c & 4 != 0 {
        lemma_castle_right_kept(st, m, 4, 4, 7, Color::White);
    }
    if c & 8 != 0 {
        lemma_castle_right_kept(st, m, 8, 4, 0, Color::White);
    }
    if c & 1 != 0 {
        lemma_castle_right_kept(st, m, 1, 60, 63, Color::Black);
    }
    if c & 2 != 0 {
        lemma_castle_right_kept(st, m, 2, 60, 56, Color::Black);
    }
    let a = st.castling;
    assert(st.board[move_from(m) as int] is Some);
    assert(forall|x: u8, y: u8| #[trigger] (x & y) <= x) by (bit_vector);
}

/// Distinct single-bit masks do not overlap.
pub proof fn lemma_single_bits(a: u64, t: u64)
    requires
        a < 64,
        t < 64,
    ensures
        ((1u64 << a) & (1u64 << t) != 0) == (a == t),
{
    assert(a < 64 && t < 64 ==> (((1u64 << a) & (1u64 << t) != 0) == (a == t))) by (bit_vector);
}

/// A pawn move that covers two ranks is the double step from the start rank
/// over an empty square.
proof fn lemma_double_step(st: State, m: u16)
    requires
        pseudo_legal(st, m),
        st.board[move_from(m) as int].unwrap().0 == Piece::Pawn,
        absdiff(move_from(m) as int, move_to(m) as int) == 16,
    ensures
        ({
            let from = move_from(m) as int;
            let to = move_to(m) as int;
            let c = st.side;
            &&& to == from + 16 * pawn_dir(c)
            &&& rank_of(from) == crate::rules::pawn_start_rank(c)
            &&& st.board[from + 8 * pawn_dir(c)] is None
            &&& st.board[to] is None
            &&& castle_middle(from, to) == from + 8 * pawn_dir(c)
        }),
{
    let from = move_from(m) as int;
    let to = move_to(m) as int;
    assert(0 <= from < 64 && 0 <= to < 64);
    assert(pawn_target(st, st.side, from, to));
}

/// The en-passant square a legal move leaves is backed by the pawn that
/// made the double step.
pub proof fn lemma_ep_backed_after(st: State, m: u16)
    requires
        consistent(st),
        legal(st, m),
    ensures
        ep_backed(state_after(st, m)),
{
    let b = st.board;
    let from = move_from(m) as int;
    let to = move_to(m) as int;
    let (p, c) = b[from].unwrap();
    let after = state_after(st, m);
    lemma_legal_makeable(st, m);
    lemma_board_after_squares(st, m);
    assert(0 <= from < 64 && 0 <= to < 64);
    if p == Piece::Pawn && absdiff(from, to) == 16 {
        lemma_double_step(st, m);
        let mid = castle_middle(from, to);
        assert(0 <= mid < 64);
        assert forall|t: int| 0 <= t < 64 && #[trigger] bit_set(after.ep, t) implies t == mid by {
            lemma_single_bits(mid as u64, t as u64);
        }
        assert(!bit_set(st.ep, to)) by {
            if bit_set(st.ep, to) {
                assert(b[to] is None);
            }
        }
        assert(!touched(st, m, mid));
        assert(rank_of(to) != 7 && rank_of(to) != 0);
    } else {
        assert(after.ep == 0);
        crate::rules::lemma_no_bits_in_zero();
    }
}

/// Every legal move of a consistent position leads to a consistent position.
pub proof fn lemma_legal_keeps_consistent(st: State, m: u16)
    requires
        consistent(st),
        legal(st, m),
    ensures
        consistent(state_after(st, m)),
{
    lemma_legal_makeable(st, m);
    lemma_board_after_squares(st, m);
    lemma_kings_after(st, m);
    lemma_castling_backed_after(st, m);
    lemma_ep_backed_after(st, m);
    let after = state_after(st, m);
    assert(opponent(after.side) == st.side);
}

/// The starting position is consistent.
pub proof fn lemma_start_consistent()
    ensures
        consistent(crate::board::start_state()),
{
    let st = crate::board::start_state();
    let b = st.board;
    assert forall|t: int| 0 <= t < 64 && b[t] == Some((Piece::King, Color::White)) implies t == 4 by {}
    assert forall|t: int| 0 <= t < 64 && b[t] == Some((Piece::King, Color::Black)) implies t == 60 by {}
    lemma_king_square_at(b, Color::White, 4);
    lemma_king_square_at(b, Color::Black, 60);
    assert forall|s: int|
        0 <= s < 64 && (#[trigger] b[s]) is Some && b[s].unwrap().1 == Color::White implies !attacks(
        b,
        b[s].unwrap().0,
        Color::White,
        s,
        60,
    ) by {
        assert(s < 16);
        assert(7 - rank_of(s) >= 6);
    }
    assert(!attacked(b, 60, Color::White));
    crate::rules::lemma_no_bits_in_zero();
    assert(15u8 & 4 != 0 && 15u8 & 8 != 0 && 15u8 & 1 != 0 && 15u8 & 2 != 0) by (bit_vector);
}

} // verus!
