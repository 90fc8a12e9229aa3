use vstd::prelude::*;
use crate::board::Game;
use crate::board_move::{
    move_from, move_to, move_promotion, move_name, spec_parse_move, promotable,
    promotion_name, parsed_promotion,
};
use crate::rules::{
    State, Board, canonical, pieces_hash, square_term, position_hash, legal_moves, state_after,
};
use crate::perft::{perft_nodes, moves_nodes, dfs_nodes, lemma_moves_nodes_zero};
use crate::square::{square_name, lemma_parse_unparse};
use crate::zobrist::ZobristKeys;
use crate::movegen::{pseudo_moves, group_moves, reach_moves, piece_reach, in_group, held_by};
use crate::pieces::{Piece, Color};
use crate::board_move::encode_move;
use crate::text::{all_ascii, spec_str_get, spec_is_whitespace, decimal};
use crate::board::{fen_text, fen_state};
use crate::fen::{
    fen_fields, castling_bits, castling_text, placement_text, is_word, tokens, lemma_tokens_of_word,
    lemma_tokens_append_word, lemma_placement_text_word, lemma_placement_text_reads, lemma_decimal_reads,
    lemma_decimal_parses,
};

verus! {

// Properties of the library as a whole, relating several operations.

proof fn lemma_pieces_hash_keys(k1: ZobristKeys, k2: ZobristKeys, b: Board, n: int)
    requires
        k1.pieces@ == k2.pieces@,
    ensures
        pieces_hash(k1, b, n) == pieces_hash(k2, b, n),
    decreases n,
{
    if n > 0 {
        lemma_pieces_hash_keys(k1, k2, b, n - 1);
        assert(square_term(k1, b, n - 1) == square_term(k2, b, n - 1));
    }
}

/// Two games that hold the same position have the same Zobrist hash,
/// however they reached it.
pub proof fn lemma_same_position_same_key(g1: Game, g2: Game)
    requires
        g1.wf(),
        g2.wf(),
        g1.state() == g2.state(),
    ensures
        g1.key() == g2.key(),
{
    g1.lemma_key_is_hash();
    g2.lemma_key_is_hash();
    let k1 = g1.hash_keys();
    let k2 = g2.hash_keys();
    assert(k1.pieces@ =~= k2.pieces@);
    assert(k1.castling@ =~= k2.castling@);
    assert(k1.en_passant@ =~= k2.en_passant@);
    lemma_pieces_hash_keys(k1, k2, g1.state().board, 64);
}

/// The sum of the counts of a perft breakdown over the moves `ms`.
pub open spec fn breakdown_sum(st: State, ms: Seq<u16>, depth: nat) -> nat
    decreases ms.len(),
{
    if ms.len() == 0 {
        0
    } else {
        breakdown_sum(st, ms.drop_last(), depth) + dfs_nodes(st, ms.last(), depth)
    }
}

proof fn lemma_breakdown_moves(st: State, ms: Seq<u16>, depth: nat)
    requires
        depth >= 1,
    ensures
        breakdown_sum(st, ms, depth) == moves_nodes(st, ms, (depth - 1) as nat),
    decreases ms.len(),
{
    if ms.len() > 0 {
        lemma_breakdown_moves(st, ms.drop_last(), depth);
        if depth == 1 {
            assert(perft_nodes(state_after(st, ms.last()), 0) == 1);
        }
    }
}

/// The counts of a perft breakdown add up to the number of move paths of
/// that depth (for depth at least one).
pub proof fn lemma_breakdown_total(st: State, depth: nat)
    requires
        depth >= 1,
    ensures
        breakdown_sum(st, legal_moves(st), depth) == perft_nodes(st, depth),
{
    lemma_breakdown_moves(st, legal_moves(st), depth);
}

/// The name of a move reads back as the same move: writing a move in long
/// algebraic notation and parsing it is the identity on moves whose
/// promotion, if any, is to knight, bishop, rook or queen.
pub proof fn lemma_move_name_parses(m: u16)
    requires
        canonical(m),
    ensures
        all_ascii(move_name(m)),
        spec_parse_move(move_name(m)) == Some(m),
{
    let from = move_from(m);
    let to = move_to(m);
    let s = move_name(m);
    lemma_parse_unparse(from);
    lemma_parse_unparse(to);
    let a = square_name(from as int);
    let b = square_name(to as int);
    let p = promotion_name(move_promotion(m));
    assert(all_ascii(s)) by {
        assert forall|i: int| 0 <= i < s.len() implies (#[trigger] s[i] as u32) < 128 by {
            if i >= 4 {
                assert(s[i] == p[i - 4]);
            }
        }
    }
    assert(s.subrange(0, 2) =~= a);
    assert(s.subrange(2, 4) =~= b);
    assert(spec_str_get(s, 0, 2) == Some(a));
    assert(spec_str_get(s, 2, 4) == Some(b));
    match move_promotion(m) {
        Some(q) => {
            assert(s.len() == 5);
            assert(s.subrange(4, 5) =~= seq![crate::pieces::piece_char(q)]);
            crate::pieces::lemma_piece_char_roundtrip(q);
            assert(parsed_promotion(s) == Some(q));
        },
        None => {
            assert(s.len() == 4);
            assert(spec_str_get(s, 4, 5) is None);
        },
    }
}

/// Making a legal move in a position that can arise in play and undoing it
/// restores the position, and with it its Zobrist hash (and so, a game's key
/// and FEN).
pub proof fn lemma_legal_move_undone(keys: ZobristKeys, st: State, m: u16)
    requires
        crate::rules::consistent(st),
        crate::rules::legal(st, m),
    ensures
        crate::rules::state_before(state_after(st, m), crate::rules::entry_of(st, m)) == st,
        position_hash(keys, crate::rules::state_before(state_after(st, m), crate::rules::entry_of(st, m)))
            == position_hash(keys, st),
{
    crate::rules::lemma_legal_makeable(st, m);
    crate::rules::lemma_undo_restores(st, m);
}

/// Undoing a pass restores the position it was made on.
pub proof fn lemma_null_move_undone(st: State)
    ensures
        crate::rules::null_before(crate::rules::null_after(st), crate::rules::null_entry(st)) == st,
{
}

/// Popping the history after pushing a hash restores it.
pub proof fn lemma_pop_undoes_push(history: Seq<u64>, key: u64)
    ensures
        history.push(key).drop_last() == history,
        crate::repetition::occurrences(history.push(key), key) == crate::repetition::occurrences(history, key)
            + 1,
{
    assert(history.push(key).drop_last() =~= history);
}

/// A move the piece may make appears among the moves of its square.
proof fn lemma_reach_has(b: Board, ep: u64, p: Piece, c: Color, s: int, t: int, n: int, promote: bool, x: Option<Piece>)
    requires
        0 <= t < n <= 64,
        0 <= s < 64,
        piece_reach(b, ep, p, c, s, t),
        promote ==> (x == Some(Piece::Queen) || x == Some(Piece::Rook) || x == Some(Piece::Bishop) || x
            == Some(Piece::Knight)),
        !promote ==> x is None,
    ensures
        reach_moves(b, ep, p, c, s, n, promote).contains(encode_move(s as u8, t as u8, x)),
    decreases n,
{
    let prev = reach_moves(b, ep, p, c, s, n - 1, promote);
    let r = reach_moves(b, ep, p, c, s, n, promote);
    if t < n - 1 {
        lemma_reach_has(b, ep, p, c, s, t, n - 1, promote, x);
        let i = choose|i: int| 0 <= i < prev.len() && prev[i] == encode_move(s as u8, t as u8, x);
        assert(r[i] == prev[i]);
    } else {
        let m = encode_move(s as u8, t as u8, x);
        if promote {
            if x == Some(Piece::Queen) {
                assert(r[prev.len() as int] == m);
            } else if x == Some(Piece::Rook) {
                assert(r[(prev.len() + 1) as int] == m);
            } else if x == Some(Piece::Bishop) {
                assert(r[(prev.len() + 2) as int] == m);
            } else {
                assert(r[(prev.len() + 3) as int] == m);
            }
        } else {
            assert(r[prev.len() as int] == m);
        }
    }
}

/// The moves of a square of a group appear among the group's moves.
proof fn lemma_group_has(b: Board, ep: u64, p: Piece, c: Color, promoting: bool, s: int, n: int, m: u16)
    requires
        0 <= s < n <= 64,
        in_group(b, p, c, promoting, s),
        reach_moves(b, ep, p, c, s, 64, promoting && p == Piece::Pawn).contains(m),
    ensures
        group_moves(b, ep, p, c, promoting, n).contains(m),
    decreases n,
{
    let prev = group_moves(b, ep, p, c, promoting, n - 1);
    let g = group_moves(b, ep, p, c, promoting, n);
    if s < n - 1 {
        lemma_group_has(b, ep, p, c, promoting, s, n - 1, m);
        let i = choose|i: int| 0 <= i < prev.len() && prev[i] == m;
        assert(g[i] == prev[i]);
    } else {
        let r = reach_moves(b, ep, p, c, s, 64, promoting && p == Piece::Pawn);
        let i = choose|i: int| 0 <= i < r.len() && r[i] == m;
        assert(g[(prev.len() + i) as int] == r[i]);
    }
}

/// Pseudo-legal moves include the legal ones: every legal move of the side
/// to move is among its pseudo-legal moves, unless it is a castling move.
pub proof fn lemma_legal_moves_are_pseudo_legal(st: State, m: u16)
    requires
        legal_moves(st).contains(m),
    ensures
        pseudo_moves(st.board, st.ep, st.side).contains(m) || crate::rules::castle_target(
            st,
            st.side,
            move_from(m) as int,
            move_to(m) as int,
        ),
{
    crate::perft::lemma_legal_moves_exact(st, m);
    let b = st.board;
    let c = st.side;
    let from = move_from(m) as int;
    let to = move_to(m) as int;
    let p = b[from].unwrap().0;
    let promo = move_promotion(m);
    assert(m == encode_move(from as u8, to as u8, promo));
    if p == Piece::King && !crate::rules::attacks(b, p, c, from, to) {
        assert(crate::rules::castle_target(st, c, from, to));
        return;
    }
    assert(piece_reach(b, st.ep, p, c, from, to)) by {
        if p == Piece::Pawn {
            let dir = crate::rules::pawn_dir(c);
            assert(crate::rules::square_at(crate::rules::file_of(from), crate::rules::rank_of(from) + dir) == from
                + 8 * dir);
            if b[to] is Some {
                assert(!held_by(b, to, c));
                assert(held_by(b, to, crate::pieces::opponent(c)));
            }
            assert(crate::rules::file_of(to) == crate::rules::file_of(from) && crate::rules::rank_of(to)
                == crate::rules::rank_of(from) + dir ==> to == from + 8 * dir);
            assert(crate::rules::file_of(to) == crate::rules::file_of(from) && crate::rules::rank_of(to)
                == crate::rules::rank_of(from) + 2 * dir ==> to == from + 16 * dir);
        }
    }
    let promoting = p == Piece::Pawn && crate::rules::rank_of(from) == crate::rules::promotion_rank(c);
    assert(in_group(b, p, c, promoting, from));
    lemma_reach_has(b, st.ep, p, c, from, to, 64, promoting && p == Piece::Pawn, promo);
    lemma_group_has(b, st.ep, p, c, promoting, from, 64, m);
    let g = group_moves(b, st.ep, p, c, promoting, 64);
    let all = pseudo_moves(b, st.ep, c);
    let i = choose|i: int| 0 <= i < g.len() && g[i] == m;
    let g0 = group_moves(b, st.ep, Piece::Pawn, c, true, 64);
    let g1 = group_moves(b, st.ep, Piece::Pawn, c, false, 64);
    let g2 = group_moves(b, st.ep, Piece::Knight, c, false, 64);
    let g3 = group_moves(b, st.ep, Piece::Bishop, c, false, 64);
    let g4 = group_moves(b, st.ep, Piece::Rook, c, false, 64);
    let g5 = group_moves(b, st.ep, Piece::Queen, c, false, 64);
    let g6 = group_moves(b, st.ep, Piece::King, c, false, 64);
    assert(all == g0 + g1 + g2 + g3 + g4 + g5 + g6);
    let off = if p == Piece::Pawn && promoting {
        0
    } else if p == Piece::Pawn {
        g0.len() as int
    } else if p == Piece::Knight {
        (g0.len() + g1.len()) as int
    } else if p == Piece::Bishop {
        (g0.len() + g1.len() + g2.len()) as int
    } else if p == Piece::Rook {
        (g0.len() + g1.len() + g2.len() + g3.len()) as int
    } else if p == Piece::Queen {
        (g0.len() + g1.len() + g2.len() + g3.len() + g4.len()) as int
    } else {
        (g0.len() + g1.len() + g2.len() + g3.len() + g4.len() + g5.len()) as int
    };
    assert(all[off + i] == m);
}


/// The castling field is a word that reads back as the rights it was
/// written from.
proof fn lemma_castling_text_reads(c: u8)
    requires
        c < 16,
    ensures
        castling_bits(castling_text(c), 0) == c,
        is_word(castling_text(c)),
{
    // The bits of each set of rights, and the rights read back from each
    // field: the field lists K, Q, k, q, and reading ORs their bits in from
    // the last letter to the first.
    assert({
        &&& 0u8 & 1u8 == 0u8
        &&& 0u8 & 2u8 == 0u8
        &&& 0u8 & 4u8 == 0u8
        &&& 0u8 & 8u8 == 0u8
        &&& 1u8 & 1u8 != 0u8
        &&& 1u8 & 2u8 == 0u8
        &&& 1u8 & 4u8 == 0u8
        &&& 1u8 & 8u8 == 0u8
        &&& (0u8 | 1u8) == 1u8
        &&& 2u8 & 1u8 == 0u8
        &&& 2u8 & 2u8 != 0u8
        &&& 2u8 & 4u8 == 0u8
        &&& 2u8 & 8u8 == 0u8
        &&& (0u8 | 2u8) == 2u8
        &&& 3u8 & 1u8 != 0u8
        &&& 3u8 & 2u8 != 0u8
        &&& 3u8 & 4u8 == 0u8
        &&& 3u8 & 8u8 == 0u8
        &&& ((0u8 | 2u8) | 1u8) == 3u8
        &&& 4u8 & 1u8 == 0u8
        &&& 4u8 & 2u8 == 0u8
        &&& 4u8 & 4u8 != 0u8
        &&& 4u8 & 8u8 == 0u8
        &&& (0u8 | 4u8) == 4u8
        &&& 5u8 & 1u8 != 0u8
        &&& 5u8 & 2u8 == 0u8
        &&& 5u8 & 4u8 != 0u8
        &&& 5u8 & 8u8 == 0u8
        &&& ((0u8 | 1u8) | 4u8) == 5u8
        &&& 6u8 & 1u8 == 0u8
        &&& 6u8 & 2u8 != 0u8
        &&& 6u8 & 4u8 != 0u8
        &&& 6u8 & 8u8 == 0u8
        &&& ((0u8 | 2u8) | 4u8) == 6u8
        &&& 7u8 & 1u8 != 0u8
        &&& 7u8 & 2u8 != 0u8
        &&& 7u8 & 4u8 != 0u8
        &&& 7u8 & 8u8 == 0u8
        &&& (((0u8 | 2u8) | 1u8) | 4u8) == 7u8
        &&& 8u8 & 1u8 == 0u8
        &&& 8u8 & 2u8 == 0u8
        &&& 8u8 & 4u8 == 0u8
        &&& 8u8 & 8u8 != 0u8
        &&& (0u8 | 8u8) == 8u8
        &&& 9u8 & 1u8 != 0u8
        &&& 9u8 & 2u8 == 0u8
        &&& 9u8 & 4u8 == 0u8
        &&& 9u8 & 8u8 != 0u8
        &&& ((0u8 | 1u8) | 8u8) == 9u8
        &&& 10u8 & 1u8 == 0u8
        &&& 10u8 & 2u8 != 0u8
        &&& 10u8 & 4u8 == 0u8
        &&& 10u8 & 8u8 != 0u8
        &&& ((0u8 | 2u8) | 8u8) == 10u8
        &&& 11u8 & 1u8 != 0u8
        &&& 11u8 & 2u8 != 0u8
        &&& 11u8 & 4u8 == 0u8
        &&& 11u8 & 8u8 != 0u8
        &&& (((0u8 | 2u8) | 1u8) | 8u8) == 11u8
        &&& 12u8 & 1u8 == 0u8
        &&& 12u8 & 2u8 == 0u8
        &&& 12u8 & 4u8 != 0u8
        &&& 12u8 & 8u8 != 0u8
        &&& ((0u8 | 8u8) | 4u8) == 12u8
        &&& 13u8 & 1u8 != 0u8
        &&& 13u8 & 2u8 == 0u8
        &&& 13u8 & 4u8 != 0u8
        &&& 13u8 & 8u8 != 0u8
        &&& (((0u8 | 1u8) | 8u8) | 4u8) == 13u8
        &&& 14u8 & 1u8 == 0u8
        &&& 14u8 & 2u8 != 0u8
        &&& 14u8 & 4u8 != 0u8
        &&& 14u8 & 8u8 != 0u8
        &&& (((0u8 | 2u8) | 8u8) | 4u8) == 14u8
        &&& 15u8 & 1u8 != 0u8
        &&& 15u8 & 2u8 != 0u8
        &&& 15u8 & 4u8 != 0u8
        &&& 15u8 & 8u8 != 0u8
        &&& ((((0u8 | 2u8) | 1u8) | 8u8) | 4u8) == 15u8
    }) by (bit_vector);
    reveal_with_fuel(castling_bits, 5);
    if c == 0 {
        assert(castling_text(c) =~= seq!['-']);
    } else if c == 1 {
        assert(castling_text(c) =~= seq!['k']);
    } else if c == 2 {
        assert(castling_text(c) =~= seq!['q']);
    } else if c == 3 {
        assert(castling_text(c) =~= seq!['k', 'q']);
    } else if c == 4 {
        assert(castling_text(c) =~= seq!['K']);
    } else if c == 5 {
        assert(castling_text(c) =~= seq!['K', 'k']);
    } else if c == 6 {
        assert(castling_text(c) =~= seq!['K', 'q']);
    } else if c == 7 {
        assert(castling_text(c) =~= seq!['K', 'k', 'q']);
    } else if c == 8 {
        assert(castling_text(c) =~= seq!['Q']);
    } else if c == 9 {
        assert(castling_text(c) =~= seq!['Q', 'k']);
    } else if c == 10 {
        assert(castling_text(c) =~= seq!['Q', 'q']);
    } else if c == 11 {
        assert(castling_text(c) =~= seq!['Q', 'k', 'q']);
    } else if c == 12 {
        assert(castling_text(c) =~= seq!['K', 'Q']);
    } else if c == 13 {
        assert(castling_text(c) =~= seq!['K', 'Q', 'k']);
    } else if c == 14 {
        assert(castling_text(c) =~= seq!['K', 'Q', 'q']);
    } else if c == 15 {
        assert(castling_text(c) =~= seq!['K', 'Q', 'k', 'q']);
    }
}

/// A single-bit bitboard names its square.
proof fn lemma_single_bit_square(k: u64)
    requires
        k < 64,
    ensures
        vstd::std_specs::bits::u64_trailing_zeros(1u64 << k) == k,
        (1u64 << k) != 0,
{
    let i = 1u64 << k;
    assert(i != 0) by (bit_vector)
        requires
            i == 1u64 << k,
            k < 64,
    ;
    vstd::std_specs::bits::axiom_u64_trailing_zeros(i);
    let t = vstd::std_specs::bits::u64_trailing_zeros(i) as u64;
    assert(t < 64);
    assert((i >> t) & 1u64 == 1u64);
    assert(t == k) by (bit_vector)
        requires
            i == 1u64 << k,
            (i >> t) & 1u64 == 1u64,
            k < 64,
            t < 64,
    ;
}

/// The states that FEN describes exactly: a full board, castling rights
/// among the four, at most one en-passant square, and a move counter whose
/// parity matches the side to move (odd with white to move, even and
/// positive with black), as play from the starting position keeps it.
pub open spec fn fen_exact(st: State) -> bool {
    &&& st.board.len() == 64
    &&& st.castling < 16
    &&& (st.ep == 0 || exists|k: u64| k < 64 && st.ep == #[trigger] (1u64 << k))
    &&& st.side == Color::White ==> st.halfmoves % 2 == 1
    &&& st.side == Color::Black ==> st.halfmoves % 2 == 0 && st.halfmoves >= 2
}

/// Writing a position as FEN and reading the text back gives the same
/// position.
pub proof fn lemma_fen_round_trip(st: State)
    requires
        fen_exact(st),
    ensures
        fen_fields(fen_text(st)) is Some,
        fen_state(fen_fields(fen_text(st)).unwrap()) == st,
{
    let p = placement_text(st.board, 0);
    let side = seq![
        if st.side == Color::White {
            'w'
        } else {
            'b'
        },
    ];
    let c = castling_text(st.castling);
    let e = if st.ep == 0 {
        seq!['-']
    } else {
        square_name(vstd::std_specs::bits::u64_trailing_zeros(st.ep) as int)
    };
    let fm = if st.side == Color::White {
        st.halfmoves / 2 + 1
    } else {
        (st.halfmoves + 1) / 2
    };
    let h = decimal(st.halfmoves_since_capture as nat);
    let f = decimal(fm as nat);
    lemma_placement_text_word(st.board, 0);
    lemma_placement_text_reads(st.board);
    lemma_castling_text_reads(st.castling);
    lemma_decimal_reads(st.halfmoves_since_capture as nat);
    lemma_decimal_reads(fm as nat);
    lemma_decimal_parses(st.halfmoves_since_capture as nat, 255);
    lemma_decimal_parses(fm as nat, usize::MAX as int);
    assert(is_word(h)) by {
        assert forall|q: int| 0 <= q < h.len() implies !spec_is_whitespace(#[trigger] h[q]) by {
            assert('0' <= h[q] <= '9');
        }
    }
    assert(is_word(f)) by {
        assert forall|q: int| 0 <= q < f.len() implies !spec_is_whitespace(#[trigger] f[q]) by {
            assert('0' <= f[q] <= '9');
        }
    }
    assert(is_word(side));
    let mut ep_square: u8 = 0;
    if st.ep != 0 {
        let k = choose|k: u64| k < 64 && st.ep == #[trigger] (1u64 << k);
        lemma_single_bit_square(k);
        ep_square = k as u8;
        lemma_parse_unparse(ep_square);
        assert(e == square_name(k as int));
        assert(is_word(e)) by {
            assert forall|q: int| 0 <= q < e.len() implies !spec_is_whitespace(#[trigger] e[q]) by {
            }
        }
        assert(e.len() == 2);
        assert(e != seq!['-']);
        assert(1u64 << (ep_square as u64) == st.ep);
    } else {
        assert(is_word(e));
    }
    let x1 = p + seq![' '] + side;
    let x2 = x1 + seq![' '] + c;
    let x3 = x2 + seq![' '] + e;
    let x4 = x3 + seq![' '] + h;
    let x5 = x4 + seq![' '] + f;
    lemma_tokens_of_word(p);
    lemma_tokens_append_word(p, side);
    lemma_tokens_append_word(x1, c);
    lemma_tokens_append_word(x2, e);
    lemma_tokens_append_word(x3, h);
    lemma_tokens_append_word(x4, f);
    assert(fen_text(st) == x5);
    let toks = tokens(fen_text(st));
    assert(toks =~= seq![p, side, c, e, h, f]);
    assert(seq!['w'][0] != seq!['b'][0]);
    assert(seq!['w'] != seq!['b']);
}


/// Whether each move of `ms` is legal where it is played, starting from
/// `st`.
pub open spec fn legal_line(st: State, ms: Seq<u16>) -> bool
    decreases ms.len(),
{
    ms.len() == 0 || (crate::rules::legal(st, ms[0]) && legal_line(state_after(st, ms[0]), ms.drop_first()))
}

/// Legal play keeps a position consistent: every position reached by legal
/// moves from a consistent one is consistent, so it has one king of each
/// color (and its legal moves can be listed).
pub proof fn lemma_legal_line_consistent(st: State, ms: Seq<u16>)
    requires
        crate::rules::consistent(st),
        legal_line(st, ms),
    ensures
        crate::rules::consistent(crate::rules::state_after_all(st, ms)),
        crate::rules::king_square(
            crate::rules::state_after_all(st, ms).board,
            crate::rules::state_after_all(st, ms).side,
        ) < 64,
    decreases ms.len(),
{
    if ms.len() > 0 {
        crate::consistency::lemma_legal_keeps_consistent(st, ms[0]);
        lemma_legal_line_consistent(state_after(st, ms[0]), ms.drop_first());
    }
}

/// Every position reached from the starting position by legal moves is
/// consistent.
pub proof fn lemma_reachable_consistent(ms: Seq<u16>)
    requires
        legal_line(crate::board::start_state(), ms),
    ensures
        crate::rules::consistent(crate::rules::state_after_all(crate::board::start_state(), ms)),
{
    crate::consistency::lemma_start_consistent();
    lemma_legal_line_consistent(crate::board::start_state(), ms);
}

/// In every position reached from the starting position by legal moves,
/// making a legal move and undoing it restores the position and its hash.
pub proof fn lemma_reachable_move_undone(keys: ZobristKeys, ms: Seq<u16>, m: u16)
    requires
        legal_line(crate::board::start_state(), ms),
        crate::rules::legal(crate::rules::state_after_all(crate::board::start_state(), ms), m),
    ensures
        ({
            let st = crate::rules::state_after_all(crate::board::start_state(), ms);
            &&& crate::rules::state_before(state_after(st, m), crate::rules::entry_of(st, m)) == st
            &&& position_hash(keys, crate::rules::state_before(state_after(st, m), crate::rules::entry_of(st, m)))
                == position_hash(keys, st)
        }),
{
    lemma_reachable_consistent(ms);
    lemma_legal_move_undone(keys, crate::rules::state_after_all(crate::board::start_state(), ms), m);
}

/// The starting position's FEN reads back exactly.
pub proof fn lemma_start_fen_exact()
    ensures
        fen_exact(crate::board::start_state()),
{
}

/// A legal move keeps a position's FEN exact while the move counter has
/// room to grow.
pub proof fn lemma_fen_exact_after(st: State, m: u16)
    requires
        crate::rules::consistent(st),
        crate::rules::legal(st, m),
        fen_exact(st),
        st.halfmoves < usize::MAX,
    ensures
        fen_exact(state_after(st, m)),
{
    crate::consistency::lemma_legal_keeps_consistent(st, m);
    crate::rules::lemma_legal_makeable(st, m);
    let after = state_after(st, m);
    let from = move_from(m) as int;
    let to = move_to(m) as int;
    if after.ep != 0 {
        let k = crate::rules::castle_middle(from, to) as u64;
        assert(k < 64);
        assert(after.ep == (1u64 << k));
    }
}

/// Legal play from a position whose FEN reads back exactly keeps it so,
/// while the move counter has room to grow.
pub proof fn lemma_fen_exact_line(st: State, ms: Seq<u16>)
    requires
        crate::rules::consistent(st),
        legal_line(st, ms),
        fen_exact(st),
        st.halfmoves + ms.len() <= usize::MAX,
    ensures
        fen_exact(crate::rules::state_after_all(st, ms)),
    decreases ms.len(),
{
    if ms.len() > 0 {
        lemma_fen_exact_after(st, ms[0]);
        crate::consistency::lemma_legal_keeps_consistent(st, ms[0]);
        lemma_fen_exact_line(state_after(st, ms[0]), ms.drop_first());
    }
}

/// The incrementally kept key of a game whose FEN reads back exactly equals
/// the key computed afresh for a game read from that FEN.
pub proof fn lemma_fen_key(g: Game, h: Game)
    requires
        g.wf(),
        h.wf(),
        fen_exact(g.state()),
        h.state() == fen_state(fen_fields(fen_text(g.state())).unwrap()),
    ensures
        fen_fields(fen_text(g.state())) is Some,
        h.key() == g.key(),
{
    lemma_fen_round_trip(g.state());
    lemma_same_position_same_key(g, h);
}

} // verus!
