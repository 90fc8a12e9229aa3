use vstd::prelude::*;
use vstd::wrapping::usize_specs;
use crate::pieces::{Piece, Color, ColoredPiece, piece_index, color_index, opponent};
use crate::board_move::{BoardMove, move_from, move_to, move_promotion, get_from, get_to, get_promotion};
use crate::square::BoardSquare;
use crate::zobrist::ZobristKeys;
use crate::rules::{
    State, Board, HistoryEntry, bit_set, position_hash, pieces_hash, square_term, ep_key_index,
    lemma_hash_update, makeable, state_after, entry_of, state_before, unmakeable, pawn_target,
    castle_target, target_ok, attacks, attacked, king_square, legal, pseudo_legal, legal_moves,
    moves_upto, moves_from, moves_between, slot_promotion, source_ok, pair_ok, slot_fits, moves_of_kinds, kind_at,
    lemma_slot_pseudo_legal, lemma_moves_from_empty, lemma_moves_between_empty,
    lemma_pseudo_legal_names_promotion, king_after, promotion_rank, rank_of, file_of, square_at,
    pawn_start_rank, pawn_dir, board_after, consistent, lemma_legal_makeable,
};
use crate::movegen::{attacks_on, attacked_on, king_square_on, board_after_on};
use crate::fen::{FenData, FenFields, fen_fields, parse_fen, empty_board, fen_char, run_digit, rank_text, placement_text, castling_text};
use crate::text::{push_char, push_decimal, push_str, decimal};

verus! {

/// A chess position with its move history. Besides the square contents it
/// keeps one bitboard per piece kind and per color, the union of all
/// pieces, and a Zobrist hash that every change updates incrementally.
#[derive(Clone)]
pub struct Game {
    side: Color,
    pieces: [Option<ColoredPiece>; 64],
    castling_flags: u8,
    en_passant_bitmap: u64,
    color_bitboards: [u64; 2],
    piece_bitboards: [u64; 6],
    all_pieces: u64,
    halfmoves: usize,
    halfmoves_since_capture: u8,
    history: Vec<HistoryEntry>,
    zobrist_key: u64,
    keys: ZobristKeys,
}

/// Setting bit `s` adds exactly `s`.
pub proof fn lemma_bit_or(b: u64, s: u64, t: u64)
    requires
        s < 64,
        t < 64,
    ensures
        ((b | (1u64 << s)) & (1u64 << t) != 0) <==> (b & (1u64 << t) != 0 || t == s),
{
    assert(((b | (1u64 << s)) & (1u64 << t) != 0) <==> (b & (1u64 << t) != 0 || t == s))
        by (bit_vector)
        requires
            s < 64,
            t < 64,
    ;
}

/// Clearing bit `s` removes exactly `s`.
pub proof fn lemma_bit_clear(b: u64, s: u64, t: u64)
    requires
        s < 64,
        t < 64,
    ensures
        ((b & !(1u64 << s)) & (1u64 << t) != 0) <==> (b & (1u64 << t) != 0 && t != s),
{
    assert(((b & !(1u64 << s)) & (1u64 << t) != 0) <==> (b & (1u64 << t) != 0 && t != s))
        by (bit_vector)
        requires
            s < 64,
            t < 64,
    ;
}

/// A bit of a union is a bit of one of the parts.
pub proof fn lemma_bit_union(a: u64, b: u64, t: u64)
    requires
        t < 64,
    ensures
        ((a | b) & (1u64 << t) != 0) <==> (a & (1u64 << t) != 0 || b & (1u64 << t) != 0),
{
    assert(((a | b) & (1u64 << t) != 0) <==> (a & (1u64 << t) != 0 || b & (1u64 << t) != 0))
        by (bit_vector)
        requires
            t < 64,
    ;
}

/// The piece bitboards agree with the squares.
pub open spec fn piece_bitboards_ok(pbb: Seq<u64>, b: Board) -> bool {
    &&& pbb.len() == 6
    &&& forall|i: int, s: int|
        0 <= i < 6 && 0 <= s < 64 ==> (#[trigger] bit_set(pbb[i], s) <==> (b[s] is Some && piece_index(
        b[s].unwrap().0) == i))
}

/// The color bitboards agree with the squares.
pub open spec fn color_bitboards_ok(cbb: Seq<u64>, b: Board) -> bool {
    &&& cbb.len() == 2
    &&& forall|i: int, s: int|
        0 <= i < 2 && 0 <= s < 64 ==> (#[trigger] bit_set(cbb[i], s) <==> (b[s] is Some && color_index(
        b[s].unwrap().1) == i))
}

/// The union bitboard agrees with the squares.
pub open spec fn all_pieces_ok(all: u64, b: Board) -> bool {
    forall|s: int| 0 <= s < 64 ==> (#[trigger] bit_set(all, s) <==> b[s] is Some)
}

proof fn lemma_bitboards_set(
    pbb: Seq<u64>,
    cbb: Seq<u64>,
    all: u64,
    b: Board,
    sq: int,
    cp: ColoredPiece,
)
    requires
        piece_bitboards_ok(pbb, b),
        color_bitboards_ok(cbb, b),
        all_pieces_ok(all, b),
        0 <= sq < 64,
        b.len() == 64,
        b[sq] is None,
    ensures
        ({
            let pi = piece_index(cp.0) as int;
            let ci = color_index(cp.1) as int;
            let m = 1u64 << (sq as u64);
            let b2 = b.update(sq, Some(cp));
            &&& piece_bitboards_ok(pbb.update(pi, pbb[pi] | m), b2)
            &&& color_bitboards_ok(cbb.update(ci, cbb[ci] | m), b2)
            &&& all_pieces_ok(all | m, b2)
        }),
{
    let pi = piece_index(cp.0) as int;
    let ci = color_index(cp.1) as int;
    let m = 1u64 << (sq as u64);
    let b2 = b.update(sq, Some(cp));
    let pbb2 = pbb.update(pi, pbb[pi] | m);
    let cbb2 = cbb.update(ci, cbb[ci] | m);
    assert forall|i: int, s: int| 0 <= i < 6 && 0 <= s < 64 implies (#[trigger] bit_set(pbb2[i], s) <==> (
    b2[s] is Some && piece_index(b2[s].unwrap().0) == i)) by {
        lemma_bit_or(pbb[i], sq as u64, s as u64);
        assert(bit_set(pbb[i], s) == bit_set(pbb[i], s));
        if s == sq {
            assert(b2[s] == Some(cp));
        } else {
            assert(b2[s] == b[s]);
        }
        if i == pi {
            assert(pbb2[i] == pbb[i] | m);
            assert(bit_set(pbb2[i], s) <==> (bit_set(pbb[i], s) || s == sq));
        } else {
            assert(pbb2[i] == pbb[i]);
        }
    }
    assert forall|i: int, s: int| 0 <= i < 2 && 0 <= s < 64 implies (#[trigger] bit_set(cbb2[i], s) <==> (
    b2[s] is Some && color_index(b2[s].unwrap().1) == i)) by {
        lemma_bit_or(cbb[i], sq as u64, s as u64);
        assert(bit_set(cbb[i], s) == bit_set(cbb[i], s));
        if s == sq {
            assert(b2[s] == Some(cp));
        } else {
            assert(b2[s] == b[s]);
        }
        if i == ci {
            assert(cbb2[i] == cbb[i] | m);
            assert(bit_set(cbb2[i], s) <==> (bit_set(cbb[i], s) || s == sq));
        } else {
            assert(cbb2[i] == cbb[i]);
        }
    }
    assert forall|s: int| 0 <= s < 64 implies (#[trigger] bit_set(all | m, s) <==> b2[s] is Some) by {
        lemma_bit_or(all, sq as u64, s as u64);
        assert(bit_set(all, s) == bit_set(all, s));
        if s == sq {
            assert(b2[s] == Some(cp));
        } else {
            assert(b2[s] == b[s]);
        }
        assert(bit_set(all | m, s) <==> (bit_set(all, s) || s == sq));
    }
}

proof fn lemma_bitboards_clear(
    pbb: Seq<u64>,
    cbb: Seq<u64>,
    all: u64,
    b: Board,
    sq: int,
)
    requires
        piece_bitboards_ok(pbb, b),
        color_bitboards_ok(cbb, b),
        all_pieces_ok(all, b),
        0 <= sq < 64,
        b.len() == 64,
        b[sq] is Some,
    ensures
        ({
            let pi = piece_index(b[sq].unwrap().0) as int;
            let ci = color_index(b[sq].unwrap().1) as int;
            let m = 1u64 << (sq as u64);
            let b2 = b.update(sq, None);
            let cbb2 = cbb.update(ci, cbb[ci] & !m);
            &&& piece_bitboards_ok(pbb.update(pi, pbb[pi] & !m), b2)
            &&& color_bitboards_ok(cbb2, b2)
            &&& all_pieces_ok(cbb2[1] | cbb2[0], b2)
        }),
{
    let pi = piece_index(b[sq].unwrap().0) as int;
    let ci = color_index(b[sq].unwrap().1) as int;
    let m = 1u64 << (sq as u64);
    let b2 = b.update(sq, None);
    let pbb2 = pbb.update(pi, pbb[pi] & !m);
    let cbb2 = cbb.update(ci, cbb[ci] & !m);
    assert forall|i: int, s: int| 0 <= i < 6 && 0 <= s < 64 implies (#[trigger] bit_set(pbb2[i], s) <==> (
    b2[s] is Some && piece_index(b2[s].unwrap().0) == i)) by {
        lemma_bit_clear(pbb[i], sq as u64, s as u64);
        assert(bit_set(pbb[i], s) == bit_set(pbb[i], s));
        assert(bit_set(pbb[i], sq) == bit_set(pbb[i], sq));
        if s == sq {
            assert(b2[s] == None::<ColoredPiece>);
        } else {
            assert(b2[s] == b[s]);
        }
        if i == pi {
            assert(pbb2[i] == pbb[i] & !m);
            assert(bit_set(pbb2[i], s) <==> (bit_set(pbb[i], s) && s != sq));
        } else {
            assert(pbb2[i] == pbb[i]);
        }
    }
    assert forall|i: int, s: int| 0 <= i < 2 && 0 <= s < 64 implies (#[trigger] bit_set(cbb2[i], s) <==> (
    b2[s] is Some && color_index(b2[s].unwrap().1) == i)) by {
        lemma_bit_clear(cbb[i], sq as u64, s as u64);
        assert(bit_set(cbb[i], s) == bit_set(cbb[i], s));
        assert(bit_set(cbb[i], sq) == bit_set(cbb[i], sq));
        if s == sq {
            assert(b2[s] == None::<ColoredPiece>);
        } else {
            assert(b2[s] == b[s]);
        }
        if i == ci {
            assert(cbb2[i] == cbb[i] & !m);
            assert(bit_set(cbb2[i], s) <==> (bit_set(cbb[i], s) && s != sq));
        } else {
            assert(cbb2[i] == cbb[i]);
        }
    }
    assert forall|s: int| 0 <= s < 64 implies (#[trigger] bit_set(cbb2[1] | cbb2[0], s) <==> b2[s] is Some) by {
        lemma_bit_union(cbb2[1], cbb2[0], s as u64);
        assert(bit_set(cbb2[1], s) == bit_set(cbb2[1], s));
        assert(bit_set(cbb2[0], s) == bit_set(cbb2[0], s));
        if b2[s] is Some {
            let c = b2[s].unwrap().1;
            assert(color_index(c) == 0 || color_index(c) == 1);
            assert(bit_set(cbb2[color_index(c) as int], s));
        } else {
            assert(!bit_set(cbb2[0], s));
            assert(!bit_set(cbb2[1], s));
        }
    }
}

/// Changing one square changes the position hash by that square's old and new contributions.
pub proof fn lemma_position_hash_square(keys: ZobristKeys, st: State, sq: int, v: Option<ColoredPiece>)
    requires
        0 <= sq < 64,
        st.board.len() == 64,
    ensures
        position_hash(keys, State { board: st.board.update(sq, v), ..st }) == position_hash(keys, st)
            ^ square_term(keys, st.board, sq) ^ square_term(keys, st.board.update(sq, v), sq),
{
    lemma_hash_update(keys, st.board, sq, v, 64);
    let ph = pieces_hash(keys, st.board, 64);
    let x = square_term(keys, st.board, sq);
    let y = square_term(keys, st.board.update(sq, v), sq);
    let a = keys.castling@[0];
    let b = keys.castling@[st.castling as int];
    let c = keys.en_passant@[ep_key_index(st.ep)];
    let d = if st.side == Color::Black {
        keys.side_to_move
    } else {
        0u64
    };
    assert((ph ^ x ^ y) ^ a ^ b ^ c ^ d == (ph ^ a ^ b ^ c ^ d) ^ x ^ y) by (bit_vector);
}

/// The hash of an empty board is zero.
proof fn lemma_empty_hash(keys: ZobristKeys, n: int)
    requires
        0 <= n <= 64,
    ensures
        pieces_hash(keys, empty_board(), n) == 0,
    decreases n,
{
    if n > 0 {
        lemma_empty_hash(keys, n - 1);
        assert(square_term(keys, empty_board(), n - 1) == 0);
        assert(0u64 ^ 0u64 == 0u64) by (bit_vector);
    }
}

/// The position a FEN string describes.
pub open spec fn fen_state(f: FenFields) -> State {
    State {
        board: f.board,
        side: if f.black_to_move {
            Color::Black
        } else {
            Color::White
        },
        castling: f.castling,
        ep: f.ep,
        halfmoves: f.halfmoves,
        halfmoves_since_capture: f.halfmoves_since_capture,
    }
}

/// The piece on a square of the starting position.
pub open spec fn start_square(s: int) -> Option<ColoredPiece> {
    let back = |x: int|
        if x == 0 || x == 7 {
            Piece::Rook
        } else if x == 1 || x == 6 {
            Piece::Knight
        } else if x == 2 || x == 5 {
            Piece::Bishop
        } else if x == 3 {
            Piece::Queen
        } else {
            Piece::King
        };
    if s / 8 == 0 {
        Some((back(s % 8), Color::White))
    } else if s / 8 == 1 {
        Some((Piece::Pawn, Color::White))
    } else if s / 8 == 6 {
        Some((Piece::Pawn, Color::Black))
    } else if s / 8 == 7 {
        Some((back(s % 8), Color::Black))
    } else {
        None
    }
}

/// The starting position: white to move, all castling rights, move one.
pub open spec fn start_state() -> State {
    State {
        board: Seq::new(64, |s: int| start_square(s)),
        side: Color::White,
        castling: 15,
        ep: 0,
        halfmoves: 1,
        halfmoves_since_capture: 0,
    }
}

/// The FEN text of a position: placement, side, castling, en-passant
/// square (that of the lowest set bit), halfmove clock, and the full-move
/// number derived from the halfmove counter.
pub open spec fn fen_text(st: State) -> Seq<char> {
    let ep_text = if st.ep == 0 {
        seq!['-']
    } else {
        crate::square::square_name(vstd::std_specs::bits::u64_trailing_zeros(st.ep) as int)
    };
    let fullmoves = if st.side == Color::White {
        st.halfmoves / 2 + 1
    } else {
        (st.halfmoves + 1) / 2
    };
    placement_text(st.board, 0) + seq![' '] + seq![
        if st.side == Color::White {
            'w'
        } else {
            'b'
        },
    ] + seq![' '] + castling_text(st.castling) + seq![' '] + ep_text + seq![' '] + decimal(
        st.halfmoves_since_capture as nat,
    ) + seq![' '] + decimal(fullmoves as nat)
}

/// Appends the FEN castling field.
fn push_castling(fen: &mut String, f: u8)
    ensures
        final(fen)@ == old(fen)@ + castling_text(f),
{
    let mut any = false;
    if f & 4 != 0 {
        push_char(fen, 'K');
        any = true;
    }
    if f & 8 != 0 {
        push_char(fen, 'Q');
        any = true;
    }
    if f & 1 != 0 {
        push_char(fen, 'k');
        any = true;
    }
    if f & 2 != 0 {
        push_char(fen, 'q');
        any = true;
    }
    if !any {
        push_char(fen, '-');
    }
    assert(fen@ =~= old(fen)@ + castling_text(f));
}

/// Castling rights without the bits of `flag`.
fn clear_flags(cf: u8, flag: u8) -> (r: u8)
    requires
        cf < 16,
    ensures
        r == cf & !flag,
        r < 16,
{
    assert(cf < 16 ==> cf & !flag < 16) by (bit_vector);
    cf & !flag
}

/// Playing one more move of a sequence extends the prefix played.
proof fn lemma_state_after_all_step(st: State, ms: Seq<u16>, i: int)
    requires
        0 <= i < ms.len(),
    ensures
        crate::rules::state_after_all(st, ms.take(i + 1)) == state_after(
            crate::rules::state_after_all(st, ms.take(i)),
            ms[i],
        ),
    decreases i,
{
    if i == 0 {
        assert(ms.take(1).drop_first() =~= Seq::<u16>::empty());
        assert(ms.take(1)[0] == ms[0]);
        assert(ms.take(0).len() == 0);
        assert(crate::rules::state_after_all(state_after(st, ms[0]), Seq::<u16>::empty()) == state_after(st, ms[0]));
        assert(crate::rules::state_after_all(st, ms.take(1)) == crate::rules::state_after_all(
            state_after(st, ms[0]),
            ms.take(1).drop_first(),
        ));
    } else {
        let rest = ms.drop_first();
        lemma_state_after_all_step(state_after(st, ms[0]), rest, i - 1);
        assert(ms.take(i + 1).drop_first() =~= rest.take(i));
        assert(ms.take(i).drop_first() =~= rest.take(i - 1));
        assert(ms.take(i + 1)[0] == ms[0]);
        assert(ms.take(i)[0] == ms[0]);
        assert(rest[i - 1] == ms[i]);
        assert(crate::rules::state_after_all(st, ms.take(i + 1)) == crate::rules::state_after_all(
            state_after(st, ms[0]),
            rest.take(i),
        ));
        assert(crate::rules::state_after_all(st, ms.take(i)) == crate::rules::state_after_all(
            state_after(st, ms[0]),
            rest.take(i - 1),
        ));
    }
}

impl Game {
    /// The position that the game holds.
    pub closed spec fn state(&self) -> State {
        State {
            board: self.pieces@,
            side: self.side,
            castling: self.castling_flags,
            ep: self.en_passant_bitmap,
            halfmoves: self.halfmoves,
            halfmoves_since_capture: self.halfmoves_since_capture,
        }
    }

    /// The moves made so far, each with what is needed to undo it.
    pub closed spec fn history_view(&self) -> Seq<HistoryEntry> {
        self.history@
    }

    /// The incrementally maintained Zobrist hash.
    pub closed spec fn key(&self) -> u64 {
        self.zobrist_key
    }

    /// The keys the hash combines.
    pub closed spec fn hash_keys(&self) -> ZobristKeys {
        self.keys
    }

    /// Whether the bitboards agree with the squares, the castling rights fit
    /// in four bits, the keys are the standard ones, and the stored hash is
    /// the hash of the position.
    #[verifier::opaque]
    pub closed spec fn wf(&self) -> bool {
        &&& self.keys.wf()
        &&& self.keys.is_standard()
        &&& self.castling_flags < 16
        &&& all_pieces_ok(self.all_pieces, self.pieces@)
        &&& piece_bitboards_ok(self.piece_bitboards@, self.pieces@)
        &&& color_bitboards_ok(self.color_bitboards@, self.pieces@)
        &&& self.zobrist_key == position_hash(self.keys, self.state())
    }

    /// The hash of a well-formed game is the hash of its position under the
    /// standard keys.
    pub proof fn lemma_key_is_hash(&self)
        requires
            self.wf(),
        ensures
            self.hash_keys().is_standard(),
            self.key() == position_hash(self.hash_keys(), self.state()),
            self.state().board.len() == 64,
            self.state().castling < 16,
    {
        reveal(Game::wf);
    }

    /// Places a piece on an empty square.
    fn set_piece(&mut self, square: BoardSquare, cp: ColoredPiece)
        requires
            old(self).wf(),
            square < 64,
            old(self).pieces@[square as int] is None,
        ensures
            final(self).wf(),
            final(self).state() == (State {
                board: old(self).state().board.update(square as int, Some(cp)),
                ..old(self).state()
            }),
            final(self).history@ == old(self).history@,
            final(self).keys == old(self).keys,
    {
        reveal(Game::wf);
        let (piece, color) = cp;
        let mask = 1u64 << square;
        let pi = piece.index();
        let ci = color.index();
        let ghost old_st = self.state();
        proof {
            lemma_bitboards_set(self.piece_bitboards@, self.color_bitboards@, self.all_pieces, self.pieces@, square as int, cp);
            lemma_position_hash_square(self.keys, old_st, square as int, Some(cp));
            assert(square_term(self.keys, old_st.board, square as int) == 0);
        }
        self.piece_bitboards[pi] = self.piece_bitboards[pi] | mask;
        self.color_bitboards[ci] = self.color_bitboards[ci] | mask;
        self.pieces[square as usize] = Some(cp);
        self.all_pieces = self.all_pieces | mask;
        let k = self.keys.piece_key(ci, pi, square as usize);
        proof {
            let z = self.zobrist_key;
            assert(z ^ 0u64 ^ k == z ^ k) by (bit_vector);
        }
        self.zobrist_key = self.zobrist_key ^ k;
    }

    /// Removes the piece from an occupied square.
    fn unset_piece(&mut self, square: BoardSquare)
        requires
            old(self).wf(),
            square < 64,
            old(self).pieces@[square as int] is Some,
        ensures
            final(self).wf(),
            final(self).state() == (State {
                board: old(self).state().board.update(square as int, None),
                ..old(self).state()
            }),
            final(self).history@ == old(self).history@,
            final(self).keys == old(self).keys,
    {
        reveal(Game::wf);
        let (piece, color) = self.pieces[square as usize].unwrap();
        let mask = 1u64 << square;
        let pi = piece.index();
        let ci = color.index();
        let ghost old_st = self.state();
        proof {
            lemma_bitboards_clear(self.piece_bitboards@, self.color_bitboards@, self.all_pieces, self.pieces@, square as int);
            lemma_position_hash_square(self.keys, old_st, square as int, None);
            assert(square_term(self.keys, old_st.board.update(square as int, None), square as int) == 0);
        }
        self.piece_bitboards[pi] = self.piece_bitboards[pi] & !mask;
        self.color_bitboards[ci] = self.color_bitboards[ci] & !mask;
        self.pieces[square as usize] = None;
        self.all_pieces = self.color_bitboards[1] | self.color_bitboards[0];
        let k = self.keys.piece_key(ci, pi, square as usize);
        proof {
            let z = self.zobrist_key;
            assert(z ^ k ^ 0u64 == z ^ k) by (bit_vector);
        }
        self.zobrist_key = self.zobrist_key ^ k;
    }

    /// Passes the turn and moves the halfmove counter by `delta`.
    fn update_turn(&mut self, delta: isize)
        requires
            old(self).wf(),
        ensures
            final(self).wf(),
            final(self).state() == (State {
                side: opponent(old(self).state().side),
                halfmoves: usize_specs::wrapping_add_signed(old(self).state().halfmoves, delta),
                ..old(self).state()
            }),
            final(self).history@ == old(self).history@,
            final(self).keys == old(self).keys,
    {
        reveal(Game::wf);
        let ghost st = self.state();
        self.side = self.side.not();
        self.halfmoves = self.halfmoves.wrapping_add_signed(delta);
        let k = self.keys.side_to_move;
        proof {
            let ph = pieces_hash(self.keys, st.board, 64);
            let a = self.keys.castling@[0];
            let b = self.keys.castling@[st.castling as int];
            let c = self.keys.en_passant@[ep_key_index(st.ep)];
            assert(ph ^ a ^ b ^ c ^ 0u64 ^ k == ph ^ a ^ b ^ c ^ k) by (bit_vector);
            assert(ph ^ a ^ b ^ c ^ k ^ k == ph ^ a ^ b ^ c ^ 0u64) by (bit_vector);
        }
        self.zobrist_key = self.zobrist_key ^ k;
    }

    /// Replaces the castling rights.
    fn update_castling_flags(&mut self, castling_flags: u8)
        requires
            old(self).wf(),
            castling_flags < 16,
        ensures
            final(self).wf(),
            final(self).state() == (State { castling: castling_flags, ..old(self).state() }),
            final(self).history@ == old(self).history@,
            final(self).keys == old(self).keys,
    {
        reveal(Game::wf);
        let ghost st = self.state();
        let k_old = self.keys.castling[self.castling_flags as usize];
        let k_new = self.keys.castling[castling_flags as usize];
        proof {
            let ph = pieces_hash(self.keys, st.board, 64);
            let a = self.keys.castling@[0];
            let c = self.keys.en_passant@[ep_key_index(st.ep)];
            let d = if st.side == Color::Black {
                self.keys.side_to_move
            } else {
                0u64
            };
            assert((ph ^ a ^ k_old ^ c ^ d) ^ k_old ^ k_new == ph ^ a ^ k_new ^ c ^ d) by (bit_vector);
        }
        self.zobrist_key = self.zobrist_key ^ k_old;
        self.castling_flags = castling_flags;
        self.zobrist_key = self.zobrist_key ^ k_new;
    }

    /// Index of the en-passant key of a bitboard.
    fn en_passant_key_index(ep: u64) -> (r: usize)
        ensures
            r == ep_key_index(ep),
            r < 9,
    {
        let idx = ep.trailing_zeros() as u8;
        let present: u8 = if ep != 0 {
            1
        } else {
            0
        };
        proof {
            vstd::std_specs::bits::axiom_u64_trailing_zeros(ep);
        }
        let col = ((idx % 8) % 64 + 1) * present;
        col as usize
    }

    /// Replaces the en-passant bitboard.
    fn update_en_passant_bitmap(&mut self, en_passant_bitmap: u64)
        requires
            old(self).wf(),
        ensures
            final(self).wf(),
            final(self).state() == (State { ep: en_passant_bitmap, ..old(self).state() }),
            final(self).history@ == old(self).history@,
            final(self).keys == old(self).keys,
    {
        reveal(Game::wf);
        let ghost st = self.state();
        let prev_col = Self::en_passant_key_index(self.en_passant_bitmap);
        let k_old = self.keys.en_passant[prev_col];
        self.zobrist_key = self.zobrist_key ^ k_old;
        self.en_passant_bitmap = en_passant_bitmap;
        let new_col = Self::en_passant_key_index(self.en_passant_bitmap);
        let k_new = self.keys.en_passant[new_col];
        proof {
            let ph = pieces_hash(self.keys, st.board, 64);
            let a = self.keys.castling@[0];
            let b = self.keys.castling@[st.castling as int];
            let d = if st.side == Color::Black {
                self.keys.side_to_move
            } else {
                0u64
            };
            assert((ph ^ a ^ b ^ k_old ^ d) ^ k_old ^ k_new == ph ^ a ^ b ^ k_new ^ d) by (bit_vector);
        }
        self.zobrist_key = self.zobrist_key ^ k_new;
    }

    /// Castling-right bit lost when a rook of color `c` leaves or is taken on `s`.
    fn rook_corner_flag(c: Color, s: BoardSquare) -> (r: u8)
        ensures
            r == crate::rules::rook_corner_flag(c, s as int),
    {
        match c {
            Color::Black => if s == crate::square::H8 {
                1
            } else if s == crate::square::A8 {
                2
            } else {
                0
            },
            Color::White => if s == crate::square::H1 {
                4
            } else if s == crate::square::A1 {
                8
            } else {
                0
            },
        }
    }

    /// Makes a move on the board, recording in the history what is needed
    /// to undo it. The move is not checked for legality.
    pub fn make_move(&mut self, board_move: BoardMove)
        requires
            old(self).wf(),
            makeable(old(self).state(), board_move),
        ensures
            final(self).wf(),
            final(self).hash_keys() == old(self).hash_keys(),
            final(self).state() == state_after(old(self).state(), board_move),
            final(self).history_view() == old(self).history_view().push(
                entry_of(old(self).state(), board_move),
            ),
    {
        let ghost st = self.state();
        let from = get_from(board_move);
        let to = get_to(board_move);
        let (piece, color) = self.pieces[from as usize].unwrap();
        let captured = self.pieces[to as usize];
        self.history.push(
            (
                board_move,
                captured,
                self.castling_flags,
                self.en_passant_bitmap,
                self.halfmoves_since_capture,
            ),
        );
        if captured.is_some() || piece == Piece::Pawn {
            self.halfmoves_since_capture = 0;
        } else {
            self.halfmoves_since_capture = self.halfmoves_since_capture.saturating_add(1);
        }
        let ghost s1 = self.state();
        assert(self.wf()) by {
            reveal(Game::wf);
        }
        if let Some((cap, cap_color)) = captured {
            self.unset_piece(to);
            if cap == Piece::Rook {
                let flag = Self::rook_corner_flag(cap_color, to);
                proof {
                self.lemma_key_is_hash();
            }
            let cf = self.castling_flags;
                let f = clear_flags(cf, flag);
                self.update_castling_flags(f);
            }
        }
        self.unset_piece(from);
        if piece == Piece::Pawn {
            if to / 8 == 7 || to / 8 == 0 {
                self.set_piece(to, (get_promotion(board_move).unwrap(), color));
            } else {
                self.set_piece(to, (Piece::Pawn, color));
            }
        } else {
            self.set_piece(to, (piece, color));
        }
        if piece == Piece::Pawn && (self.en_passant_bitmap & (1u64 << to)) != 0 {
            let victim = crate::square::from_position(to % 8, from / 8);
            self.unset_piece(victim);
        }
        if piece == Piece::Pawn {
            let diff = if from > to {
                from - to
            } else {
                to - from
            };
            let ep = if diff == 16 {
                1u64 << ((from + to) / 2)
            } else {
                0
            };
            self.update_en_passant_bitmap(ep);
        } else {
            self.update_en_passant_bitmap(0);
        }
        if piece == Piece::Rook {
            let flag = Self::rook_corner_flag(color, from);
            proof {
                self.lemma_key_is_hash();
            }
            let cf = self.castling_flags;
            let f = clear_flags(cf, flag);
            self.update_castling_flags(f);
        }
        if piece == Piece::King {
            let diff = if from > to {
                from - to
            } else {
                to - from
            };
            if diff == 2 {
                let corner = crate::movegen::castle_corner_square(from, to);
                self.unset_piece(corner);
                self.set_piece((from + to) / 2, (Piece::Rook, color));
            }
            let flags: u8 = 3u8 << (2 * color.index() as u8);
            assert(flags == crate::rules::color_castle_flags(color)) by {
                assert(3u8 << 0u8 == 3u8) by (bit_vector);
                assert(3u8 << 2u8 == 12u8) by (bit_vector);
            }
            proof {
                self.lemma_key_is_hash();
            }
            let cf = self.castling_flags;
            let f = clear_flags(cf, flags);
            self.update_castling_flags(f);
        }
        self.update_turn(1);
        proof {
            let target = state_after(st, board_move);
            assert(self.state().board =~= target.board);
        }
    }

    /// Undoes the last move of the history.
    pub fn unmake_move(&mut self)
        requires
            old(self).wf(),
            old(self).history_view().len() > 0,
            unmakeable(old(self).state(), old(self).history_view().last()),
        ensures
            final(self).wf(),
            final(self).hash_keys() == old(self).hash_keys(),
            final(self).state() == state_before(old(self).state(), old(self).history_view().last()),
            final(self).history_view() == old(self).history_view().drop_last(),
    {
        let ghost st = self.state();
        let (board_move, captured_piece, castling_flags, en_passant_bitmap, halfmoves_since_capture) =
            self.history.pop().unwrap();
        self.halfmoves_since_capture = halfmoves_since_capture;
        assert(self.wf()) by {
            reveal(Game::wf);
        }
        let from = get_from(board_move);
        let to = get_to(board_move);
        let (piece, color) = self.pieces[to as usize].unwrap();
        self.unset_piece(to);
        match get_promotion(board_move) {
            Some(_) => self.set_piece(from, (Piece::Pawn, color)),
            None => self.set_piece(from, (piece, color)),
        }
        if let Some(cp) = captured_piece {
            self.set_piece(to, cp);
        }
        self.update_castling_flags(castling_flags);
        self.update_en_passant_bitmap(en_passant_bitmap);
        let diff = if from > to {
            from - to
        } else {
            to - from
        };
        if piece == Piece::King && diff == 2 {
            let corner = crate::movegen::castle_corner_square(from, to);
            self.set_piece(corner, (Piece::Rook, color));
            self.unset_piece((from + to) / 2);
        }
        if piece == Piece::Pawn && captured_piece.is_none() && to % 8 != from % 8 {
            let victim = crate::square::from_position(to % 8, from / 8);
            self.set_piece(victim, (Piece::Pawn, color.not()));
        }
        self.update_turn(-1);
        proof {
            let target = state_before(st, old(self).history@.last());
            assert(self.state().board =~= target.board);
            assert(self.history@ =~= old(self).history@.drop_last());
        }
    }

    /// Passes the turn without moving (for null-move pruning); the en-passant
    /// square is cleared and the halfmove clock advances.
    pub fn make_null_move(&mut self)
        requires
            old(self).wf(),
        ensures
            final(self).wf(),
            final(self).state() == crate::rules::null_after(old(self).state()),
            final(self).history_view() == old(self).history_view().push(
                crate::rules::null_entry(old(self).state()),
            ),
    {
        self.history.push(
            (
                crate::board_move::empty(),
                None,
                self.castling_flags,
                self.en_passant_bitmap,
                self.halfmoves_since_capture,
            ),
        );
        assert(self.wf()) by {
            reveal(Game::wf);
        }
        self.update_en_passant_bitmap(0);
        self.halfmoves_since_capture = self.halfmoves_since_capture.saturating_add(1);
        assert(self.wf()) by {
            reveal(Game::wf);
        }
        self.update_turn(0);
        proof {
            assert(usize_specs::wrapping_add_signed(old(self).halfmoves, 0isize) == old(self).halfmoves);
        }
    }

    /// Undoes a null move: restores the en-passant square and the halfmove
    /// clock from the last history entry and passes the turn back.
    pub fn unmake_null_move(&mut self)
        requires
            old(self).wf(),
            old(self).history_view().len() > 0,
        ensures
            final(self).wf(),
            final(self).state() == crate::rules::null_before(old(self).state(), old(self).history_view().last()),
            final(self).history_view() == old(self).history_view().drop_last(),
    {
        let (_, _, _, en_passant_bitmap, halfmoves_since_capture) = self.history.pop().unwrap();
        assert(self.wf()) by {
            reveal(Game::wf);
        }
        self.update_en_passant_bitmap(en_passant_bitmap);
        self.halfmoves_since_capture = halfmoves_since_capture;
        assert(self.wf()) by {
            reveal(Game::wf);
        }
        self.update_turn(0);
        proof {
            assert(usize_specs::wrapping_add_signed(old(self).halfmoves, 0isize) == old(self).halfmoves);
            assert(self.history@ =~= old(self).history@.drop_last());
        }
    }

    /// Whether a pawn of color `c` on `from` may go to `to` (one or two steps
    /// forward onto empty squares, or a diagonal capture including en passant).
    fn pawn_target_exec(&self, c: Color, from: u8, to: u8) -> (r: bool)
        requires
            from < 64,
            to < 64,
            self.pieces@.len() == 64,
        ensures
            r == pawn_target(self.state(), c, from as int, to as int),
    {
        let fx = from % 8;
        let fy = from / 8;
        let tx = to % 8;
        let ty = to / 8;
        let (dir_up, start): (bool, u8) = match c {
            Color::White => (true, 1),
            Color::Black => (false, 6),
        };
        let one = if dir_up {
            ty == fy + 1
        } else {
            ty + 1 == fy
        };
        let two = if dir_up {
            ty == fy + 2
        } else {
            ty + 2 == fy
        };
        if tx == fx && one && self.pieces[to as usize].is_none() {
            return true;
        }
        if tx == fx && two && fy == start && self.pieces[to as usize].is_none() {
            let mid = if dir_up {
                from + 8
            } else {
                from - 8
            };
            assert(mid as int == square_at(file_of(from as int), rank_of(from as int) + pawn_dir(c)));
            if self.pieces[mid as usize].is_none() {
                return true;
            }
        }
        attacks_on(&self.pieces, Piece::Pawn, c, from, to) && (self.pieces[to as usize].is_some()
            || (self.en_passant_bitmap & (1u64 << to)) != 0)
    }

    /// Whether the king of color `c` on `from` may castle to `to`.
    fn castle_target_exec(&self, c: Color, from: u8, to: u8) -> (r: bool)
        requires
            from < 64,
            to < 64,
            self.pieces@.len() == 64,
        ensures
            r == castle_target(self.state(), c, from as int, to as int),
    {
        let them = c.not();
        let (base, king_side, queen_side): (u8, u8, u8) = match c {
            Color::White => (0, 4, 8),
            Color::Black => (56, 1, 2),
        };
        if attacked_on(&self.pieces, from, them) {
            return false;
        }
        if to == base + 6 && self.castling_flags & king_side != 0 && self.pieces[(base + 5) as usize].is_none()
            && self.pieces[(base + 6) as usize].is_none() && !attacked_on(&self.pieces, base + 5, them) {
            return true;
        }
        to == base + 2 && self.castling_flags & queen_side != 0 && self.pieces[(base + 1) as usize].is_none()
            && self.pieces[(base + 2) as usize].is_none() && self.pieces[(base + 3) as usize].is_none()
            && !attacked_on(&self.pieces, base + 3, them)
    }

    /// Whether piece `p` of color `c` on `from` may go to `to`, ignoring
    /// the safety of its own king.
    fn target_ok_exec(&self, p: Piece, c: Color, from: u8, to: u8) -> (r: bool)
        requires
            from < 64,
            to < 64,
            self.pieces@.len() == 64,
        ensures
            r == target_ok(self.state(), p, c, from as int, to as int),
    {
        match p {
            Piece::Pawn => self.pawn_target_exec(c, from, to),
            Piece::King => attacks_on(&self.pieces, p, c, from, to) || self.castle_target_exec(c, from, to),
            _ => attacks_on(&self.pieces, p, c, from, to),
        }
    }

    /// Whether a pseudo-legal move keeps the mover's king unattacked.
    fn is_safe_after(&self, m: BoardMove, king: u8) -> (r: bool)
        requires
            pseudo_legal(self.state(), m),
            king as int == king_square(self.state().board, self.state().side),
            king < 64,
            self.pieces@.len() == 64,
        ensures
            r == legal(self.state(), m),
    {
        proof {
            lemma_pseudo_legal_names_promotion(self.state(), m);
        }
        let after = board_after_on(&self.pieces, self.en_passant_bitmap, m);
        let from = get_from(m);
        let to = get_to(m);
        let ks = match self.pieces[from as usize] {
            Some((Piece::King, _)) => to,
            _ => king,
        };
        !attacked_on(&after, ks, self.side.not())
    }

    /// Appends the legal moves from `from`, ordered by target square and
    /// promotion piece (queen, rook, bishop, knight).
    fn push_moves_from(&self, moves: &mut Vec<BoardMove>, from: u8, p: Piece, king: u8)
        requires
            self.wf(),
            from < 64,
            king as int == king_square(self.state().board, self.state().side),
            king < 64,
            source_ok(self.state(), from as int),
            self.state().board[from as int].unwrap().0 == p,
        ensures
            final(moves)@ == old(moves)@ + moves_from(self.state(), from as int, 64),
    {
        let ghost st = self.state();
        let ghost pre = old(moves)@;
        let side = self.side;
        proof {
            self.lemma_key_is_hash();
            assert(moves@ =~= pre + moves_from(st, from as int, 0));
        }
        let promo_row = p == Piece::Pawn && match side {
            Color::White => from / 8 == 6,
            Color::Black => from / 8 == 1,
        };
        let mut to: u8 = 0;
        while to < 64
            invariant
                from < 64,
                to <= 64,
                st == self.state(),
                st.board.len() == 64,
                side == st.side,
                king as int == king_square(st.board, side),
                king < 64,
                source_ok(st, from as int),
                st.board[from as int].unwrap().0 == p,
                promo_row == (p == Piece::Pawn && rank_of(from as int) == promotion_rank(side)),
                moves@ == pre + moves_from(st, from as int, to as int),
            decreases 64 - to,
        {
            let free = match self.pieces[to as usize] {
                Some((_, tc)) => tc != side,
                None => true,
            };
            if !(free && self.target_ok_exec(p, side, from, to)) {
                proof {
                    lemma_moves_between_empty(st, from as int, to as int, 5);
                    assert(moves_from(st, from as int, to + 1) =~= moves_from(st, from as int, to as int));
                }
                to = to + 1;
                continue;
            }
            let mut j: u8 = 0;
            while j < 5
                invariant
                    from < 64,
                    to < 64,
                    j <= 5,
                    st == self.state(),
                    st.board.len() == 64,
                    side == st.side,
                    king as int == king_square(st.board, side),
                    king < 64,
                    pair_ok(st, from as int, to as int),
                    st.board[from as int].unwrap().0 == p,
                    promo_row == (p == Piece::Pawn && rank_of(from as int) == promotion_rank(side)),
                    moves@ == pre + moves_from(st, from as int, to as int)
                        + moves_between(st, from as int, to as int, j as int),
                decreases 5 - j,
            {
                let promotion = match j {
                    1 => Some(Piece::Queen),
                    2 => Some(Piece::Rook),
                    3 => Some(Piece::Bishop),
                    4 => Some(Piece::Knight),
                    _ => None,
                };
                assert(promotion == slot_promotion(j as int));
                let m = crate::board_move::new(from, to, promotion);
                proof {
                    lemma_slot_pseudo_legal(st, from as int, to as int, j as int);
                }
                if promo_row == promotion.is_some() && self.is_safe_after(m, king) {
                    moves.push(m);
                }
                proof {
                    assert(moves@ =~= pre + moves_from(st, from as int, to as int)
                        + moves_between(st, from as int, to as int, j + 1));
                }
                j = j + 1;
            }
            proof {
                assert(moves@ =~= pre + moves_from(st, from as int, to + 1));
            }
            to = to + 1;
        }
    }

    /// The legal moves of the side to move, with their count: the pawn moves
    /// first, then those of the knights, bishops, rooks, queens and the
    /// king; within a kind ordered by source square, target square and
    /// promotion piece (queen, rook, bishop, knight); each move once.
    pub fn get_moves(&self) -> (r: (usize, Vec<BoardMove>))
        requires
            self.wf(),
            king_square(self.state().board, self.state().side) < 64,
        ensures
            r.1@ == legal_moves(self.state()),
            r.0 == r.1@.len(),
            r.1@.no_duplicates(),
    {
        proof {
            self.lemma_key_is_hash();
            crate::perft::lemma_legal_moves_distinct(self.state());
        }
        let ghost st = self.state();
        let side = self.side;
        let king = king_square_on(&self.pieces, side);
        let mut moves: Vec<BoardMove> = Vec::new();
        let mut ki: usize = 0;
        while ki < 6
            invariant
                ki <= 6,
                self.wf(),
                st == self.state(),
                st.board.len() == 64,
                side == st.side,
                king as int == king_square(st.board, side),
                king < 64,
                moves@ == moves_of_kinds(st, ki as int),
            decreases 6 - ki,
        {
            let kind = match ki {
                0 => Piece::Pawn,
                1 => Piece::Knight,
                2 => Piece::Bishop,
                3 => Piece::Rook,
                4 => Piece::Queen,
                _ => Piece::King,
            };
            assert(kind == kind_at(ki as int));
            let mut from: u8 = 0;
            while from < 64
                invariant
                    ki < 6,
                    from <= 64,
                    self.wf(),
                    st == self.state(),
                    st.board.len() == 64,
                    side == st.side,
                    king as int == king_square(st.board, side),
                    king < 64,
                    kind == kind_at(ki as int),
                    moves@ == moves_of_kinds(st, ki as int) + moves_upto(st, from as int, kind),
                decreases 64 - from,
            {
                let ghost before = moves@;
                let (is_kind, own) = match self.pieces[from as usize] {
                    Some((p, pc)) => (p == kind, pc == side && (p != Piece::King || from == king)),
                    None => (false, false),
                };
                if !is_kind {
                    assert(moves_upto(st, from + 1, kind) =~= moves_upto(st, from as int, kind));
                } else if !own {
                    proof {
                        lemma_moves_from_empty(st, from as int, 64);
                        assert(moves_upto(st, from + 1, kind) =~= moves_upto(st, from as int, kind));
                    }
                } else {
                    self.push_moves_from(&mut moves, from, kind, king);
                    assert(moves@ =~= moves_of_kinds(st, ki as int) + moves_upto(st, from + 1, kind));
                }
                from = from + 1;
            }
            assert(moves@ =~= moves_of_kinds(st, ki + 1));
            ki = ki + 1;
        }
        (moves.len(), moves)
    }

    /// An empty board, white to move, no rights, counters at zero.
    fn empty() -> (g: Game)
        ensures
            g.wf(),
            g.state() == (State {
                board: empty_board(),
                side: Color::White,
                castling: 0,
                ep: 0,
                halfmoves: 0,
                halfmoves_since_capture: 0,
            }),
            g.history_view().len() == 0,
    {
        let keys = ZobristKeys::new();
        let g = Game {
            side: Color::White,
            pieces: [None; 64],
            castling_flags: 0,
            en_passant_bitmap: 0,
            color_bitboards: [0u64; 2],
            piece_bitboards: [0u64; 6],
            all_pieces: 0,
            halfmoves: 0,
            halfmoves_since_capture: 0,
            history: Vec::new(),
            zobrist_key: 0,
            keys,
        };
        proof {
            assert(g.pieces@ =~= empty_board());
            lemma_empty_hash(keys, 64);
            let c0 = keys.castling@[0];
            assert(0u64 ^ c0 ^ c0 ^ 0u64 ^ 0u64 == 0u64) by (bit_vector);
            crate::rules::lemma_no_bits_in_zero();
            assert(g.color_bitboards@ =~= seq![0u64, 0u64]);
            assert(g.piece_bitboards@ =~= seq![0u64, 0u64, 0u64, 0u64, 0u64, 0u64]);
        }
        assert(g.wf()) by {
            reveal(Game::wf);
        }
        g
    }

    /// A game holding the given position with an empty history.
    fn from_parts(
        board: &[Option<ColoredPiece>; 64],
        black_to_move: bool,
        castling: u8,
        ep: u64,
        halfmoves_since_capture: u8,
        halfmoves: usize,
    ) -> (g: Game)
        requires
            castling < 16,
        ensures
            g.wf(),
            g.state() == (State {
                board: board@,
                side: if black_to_move {
                    Color::Black
                } else {
                    Color::White
                },
                castling,
                ep,
                halfmoves,
                halfmoves_since_capture,
            }),
            g.history_view().len() == 0,
    {
        let mut g = Game::empty();
        let mut s: usize = 0;
        while s < 64
            invariant
                s <= 64,
                g.wf(),
                g.history@.len() == 0,
                g.state().side == Color::White,
                g.state().castling == 0,
                g.state().ep == 0,
                g.state().halfmoves == 0,
                g.state().halfmoves_since_capture == 0,
                g.pieces@.len() == 64,
                forall|i: int| 0 <= i < s ==> g.pieces@[i] == board@[i],
                forall|i: int| s <= i < 64 ==> g.pieces@[i] is None,
            decreases 64 - s,
        {
            match board[s] {
                Some(cp) => {
                    g.set_piece(s as u8, cp);
                },
                None => {},
            }
            s = s + 1;
        }
        assert(g.pieces@ =~= board@);
        if black_to_move {
            g.update_turn(0);
            assert(usize_specs::wrapping_add_signed(0usize, 0isize) == 0);
        }
        g.update_castling_flags(castling);
        g.update_en_passant_bitmap(ep);
        g.halfmoves_since_capture = halfmoves_since_capture;
        g.halfmoves = halfmoves;
        assert(g.wf()) by {
            reveal(Game::wf);
        }
        g
    }

    /// A game from a FEN string, or the starting position when `fen` is `None`.
    pub fn new(fen: Option<&str>) -> (g: Game)
        requires
            fen matches Some(f) ==> fen_fields(f@) is Some,
        ensures
            g.wf(),
            g.history_view().len() == 0,
            fen matches Some(f) ==> g.state() == fen_state(fen_fields(f@).unwrap()),
            fen is None ==> g.state() == start_state(),
    {
        match fen {
            Some(f) => {
                let d = parse_fen(f).unwrap();
                Game::from_parts(&d.board, d.black_to_move, d.castling, d.ep, d.halfmoves_since_capture, d.halfmoves)
            },
            None => Game::start(),
        }
    }

    /// A game from a FEN string, or `None` where the string is not one that
    /// `new` reads.
    pub fn from_fen(fen: &str) -> (r: Option<Game>)
        ensures
            r is Some <==> fen_fields(fen@) is Some,
            r matches Some(g) ==> g.wf() && g.history_view().len() == 0 && g.state() == fen_state(
                fen_fields(fen@).unwrap(),
            ),
    {
        match parse_fen(fen) {
            Some(d) => {
                Some(Game::from_parts(&d.board, d.black_to_move, d.castling, d.ep, d.halfmoves_since_capture, d.halfmoves))
            },
            None => None,
        }
    }

    /// The starting position.
    pub fn start() -> (g: Game)
        ensures
            g.wf(),
            g.history_view().len() == 0,
            g.state() == start_state(),
    {
        let mut board: [Option<ColoredPiece>; 64] = [None; 64];
        let back = [Piece::Rook, Piece::Knight, Piece::Bishop, Piece::Queen, Piece::King, Piece::Bishop, Piece::Knight, Piece::Rook];
        let mut x: usize = 0;
        while x < 8
            invariant
                x <= 8,
                back@ == seq![Piece::Rook, Piece::Knight, Piece::Bishop, Piece::Queen, Piece::King, Piece::Bishop, Piece::Knight, Piece::Rook],
                forall|s: int| 0 <= s < 64 && (s % 8) < x ==> board@[s] == start_square(s),
                forall|s: int| 0 <= s < 64 && (s % 8) >= x ==> board@[s] is None,
            decreases 8 - x,
        {
            board[x] = Some((back[x], Color::White));
            board[8 + x] = Some((Piece::Pawn, Color::White));
            board[48 + x] = Some((Piece::Pawn, Color::Black));
            board[56 + x] = Some((back[x], Color::Black));
            x = x + 1;
        }
        assert(board@ =~= Seq::new(64, |s: int| start_square(s)));
        Game::from_parts(&board, false, 15, 0, 0, 1)
    }

    /// Appends the FEN text of rank `y`.
    fn push_rank(&self, out: &mut String, y: u8)
        requires
            y < 8,
            self.pieces@.len() == 64,
        ensures
            final(out)@ == old(out)@ + rank_text(self.pieces@, y as int, 0, 0),
    {
        let mut run: u8 = 0;
        let mut x: u8 = 0;
        while x < 8
            invariant
                x <= 8,
                y < 8,
                run <= x,
                self.pieces@.len() == 64,
                old(out)@ + rank_text(self.pieces@, y as int, 0, 0) == out@ + rank_text(self.pieces@, y as int, x as int, run as int),
            decreases 8 - x,
        {
            let ghost before = out@;
            match self.pieces[(x + 8 * y) as usize] {
                Some((piece, color)) => {
                    if run > 0 {
                        push_char(out, crate::text::digit_char(run));
                    }
                    let c = piece.to_char();
                    let fc = if color == Color::White {
                        ((c as u32) - 32) as u8 as char
                    } else {
                        c
                    };
                    assert(fc == fen_char((piece, color)));
                    push_char(out, fc);
                    proof {
                        assert(out@ =~= before + run_digit(run as int) + seq![fc]);
                        assert(rank_text(self.pieces@, y as int, x as int, run as int) == run_digit(run as int) + seq![fc] + rank_text(self.pieces@, y as int, x + 1, 0));
                        assert(before + rank_text(self.pieces@, y as int, x as int, run as int) =~= out@ + rank_text(self.pieces@, y as int, x + 1, 0));
                    }
                    run = 0;
                },
                None => {
                    run = run + 1;
                },
            }
            x = x + 1;
        }
        let ghost before = out@;
        if run > 0 {
            push_char(out, crate::text::digit_char(run));
        }
        assert(out@ =~= before + run_digit(run as int));
    }

    /// Appends the placement field.
    fn push_placement(&self, fen: &mut String)
        requires
            self.pieces@.len() == 64,
        ensures
            final(fen)@ == old(fen)@ + placement_text(self.pieces@, 0),
    {
        let mut y: u8 = 8;
        while y > 0
            invariant
                y <= 8,
                self.pieces@.len() == 64,
                fen@ == old(fen)@ + (if y == 8 {
                    Seq::<char>::empty()
                } else {
                    placement_text(self.pieces@, y as int)
                }),
            decreases y,
        {
            y = y - 1;
            let ghost start = fen@;
            if y < 7 {
                push_char(fen, '/');
            }
            self.push_rank(fen, y);
            proof {
                if y == 7 {
                    assert(fen@ =~= old(fen)@ + placement_text(self.pieces@, 7));
                } else {
                    assert(fen@ =~= old(fen)@ + placement_text(self.pieces@, y as int));
                }
            }
        }
    }

    /// The FEN text of the position.
    #[verifier::spinoff_prover]
    #[verifier::rlimit(40)]
    pub fn get_fen(&self) -> (r: String)
        requires
            self.wf(),
            !(self.state().side == Color::Black && self.state().halfmoves == usize::MAX),
        ensures
            r@ == fen_text(self.state()),
    {
        proof {
            self.lemma_key_is_hash();
        }
        let mut fen = String::new();
        self.push_placement(&mut fen);
        let ghost p1 = fen@;
        push_char(&mut fen, ' ');
        push_char(&mut fen, if self.side == Color::White { 'w' } else { 'b' });
        push_char(&mut fen, ' ');
        let ghost p2 = fen@;
        push_castling(&mut fen, self.castling_flags);
        let ghost p3 = fen@;
        push_char(&mut fen, ' ');
        let ghost p4 = fen@;
        if self.en_passant_bitmap == 0 {
            push_char(&mut fen, '-');
        } else {
            let idx = self.en_passant_bitmap.trailing_zeros() as u8;
            proof {
                vstd::std_specs::bits::axiom_u64_trailing_zeros(self.en_passant_bitmap);
            }
            let name = crate::square::unparse(idx);
            push_str(&mut fen, name.as_str());
        }
        let ghost p5 = fen@;
        push_char(&mut fen, ' ');
        push_decimal(&mut fen, self.halfmoves_since_capture as u64);
        push_char(&mut fen, ' ');
        let fullmoves = if self.side == Color::White {
            self.halfmoves / 2 + 1
        } else {
            (self.halfmoves + 1) / 2
        };
        let ghost p6 = fen@;
        push_decimal(&mut fen, fullmoves as u64);
        proof {
            let st = self.state();
            let ep_text = if st.ep == 0 {
                seq!['-']
            } else {
                crate::square::square_name(vstd::std_specs::bits::u64_trailing_zeros(st.ep) as int)
            };
            assert(p5 =~= p4 + ep_text);
            assert(fen@ =~= fen_text(self.state()));
        }
        fen
    }

    /// The Zobrist hash of the position.
    pub fn zobrist_key(&self) -> (r: u64)
        ensures
            r == self.key(),
    {
        self.zobrist_key
    }

    /// The side to move.
    pub fn side(&self) -> (r: Color)
        ensures
            r == self.state().side,
    {
        self.side
    }

    /// The piece on a square.
    pub fn piece_at(&self, square: BoardSquare) -> (r: Option<ColoredPiece>)
        requires
            square < 64,
        ensures
            r == self.state().board[square as int],
    {
        self.pieces[square as usize]
    }

    /// The squares' contents.
    pub fn pieces(&self) -> (r: [Option<ColoredPiece>; 64])
        ensures
            r@ == self.state().board,
    {
        self.pieces
    }

    /// The bitboard of the pieces of a kind (of either color).
    pub fn piece_bitboard(&self, piece: Piece) -> (r: u64)
        requires
            self.wf(),
        ensures
            forall|s: int| 0 <= s < 64 ==> (bit_set(r, s) <==> (self.state().board[s] is Some
                && self.state().board[s].unwrap().0 == piece)),
    {
        assert(self.wf() ==> piece_bitboards_ok(self.piece_bitboards@, self.pieces@)) by {
            reveal(Game::wf);
        }
        let r = self.piece_bitboards[piece.index()];
        assert forall|s: int| 0 <= s < 64 implies (bit_set(r, s) <==> (self.state().board[s] is Some
            && self.state().board[s].unwrap().0 == piece)) by {
            assert(bit_set(self.piece_bitboards@[piece_index(piece) as int], s) == bit_set(r, s));
            if self.pieces@[s] is Some {
                crate::pieces::lemma_piece_index_roundtrip(self.pieces@[s].unwrap().0, 0);
                crate::pieces::lemma_piece_index_roundtrip(piece, 0);
            }
        }
        r
    }

    /// The bitboard of the pieces of a color.
    pub fn color_bitboard(&self, color: Color) -> (r: u64)
        requires
            self.wf(),
        ensures
            forall|s: int| 0 <= s < 64 ==> (bit_set(r, s) <==> (self.state().board[s] is Some
                && self.state().board[s].unwrap().1 == color)),
    {
        assert(self.wf() ==> color_bitboards_ok(self.color_bitboards@, self.pieces@)) by {
            reveal(Game::wf);
        }
        let r = self.color_bitboards[color.index()];
        assert forall|s: int| 0 <= s < 64 implies (bit_set(r, s) <==> (self.state().board[s] is Some
            && self.state().board[s].unwrap().1 == color)) by {
            assert(bit_set(self.color_bitboards@[color_index(color) as int], s) == bit_set(r, s));
        }
        r
    }

    /// The square of the lowest king of a color (64 if it has none).
    pub fn get_king_position(&self, color: Color) -> (r: BoardSquare)
        ensures
            r as int == king_square(self.state().board, color),
    {
        king_square_on(&self.pieces, color)
    }

    /// Whether the king of `color` is attacked.
    pub fn is_king_in_check(&self, color: Color) -> (r: bool)
        requires
            king_square(self.state().board, color) < 64,
        ensures
            r == attacked(self.state().board, king_square(self.state().board, color), opponent(color)),
    {
        let k = king_square_on(&self.pieces, color);
        attacked_on(&self.pieces, k, color.not())
    }

    /// The moves of `color` that follow the pieces' movement rules without
    /// regard to its king (no castling), as `pseudo_moves` orders them, with
    /// their count. A pawn on the rank beyond its promotion rank would step
    /// off the board.
    pub fn get_side_pseudo_legal_moves(&self, color: Color) -> (r: (usize, Vec<BoardMove>))
        requires
            crate::movegen::no_pawn_on_last_rank(self.state().board, color),
        ensures
            r.1@ == crate::movegen::pseudo_moves(self.state().board, self.state().ep, color),
            r.0 == r.1@.len(),
    {
        let moves = crate::movegen::pseudo_legal_moves_on(&self.pieces, self.en_passant_bitmap, color);
        (moves.len(), moves)
    }

    /// Whether square `square` is attacked by `by`.
    pub fn is_square_attacked(&self, square: BoardSquare, by: Color) -> (r: bool)
        requires
            square < 64,
        ensures
            r == attacked(self.state().board, square as int, by),
    {
        attacked_on(&self.pieces, square, by)
    }

    /// Whether a move captures: a piece stands on the target, or a pawn
    /// moves onto the en-passant square.
    pub fn is_capture(&self, board_move: BoardMove) -> (r: bool)
        ensures
            r == (self.state().board[move_to(board_move) as int] is Some || (self.state().board[move_from(
                board_move,
            ) as int] is Some && self.state().board[move_from(board_move) as int].unwrap().0 == Piece::Pawn
                && bit_set(self.state().ep, move_to(board_move) as int))),
    {
        let from = get_from(board_move);
        let to = get_to(board_move);
        if self.pieces[to as usize].is_some() {
            return true;
        }
        if let Some((piece, _)) = self.pieces[from as usize] {
            if piece == Piece::Pawn && (self.en_passant_bitmap & (1u64 << to)) != 0 {
                return true;
            }
        }
        false
    }

    /// Makes a move and tells whether, after it, the king of the side that
    /// moved stands attacked; the move is then taken back.
    pub fn is_check(&mut self, board_move: BoardMove) -> (r: bool)
        requires
            old(self).wf(),
            consistent(old(self).state()),
            legal(old(self).state(), board_move),
        ensures
            final(self).wf(),
            final(self).state() == old(self).state(),
            final(self).history_view() == old(self).history_view(),
            r == attacked(
                state_after(old(self).state(), board_move).board,
                king_square(state_after(old(self).state(), board_move).board, old(self).state().side),
                opponent(old(self).state().side),
            ),
    {
        let ghost st = self.state();
        let ghost hist = self.history_view();
        proof {
            lemma_legal_makeable(st, board_move);
            crate::consistency::lemma_legal_keeps_consistent(st, board_move);
            crate::rules::lemma_made_is_unmakeable(st, board_move);
            crate::rules::lemma_undo_restores(st, board_move);
        }
        self.make_move(board_move);
        proof {
            self.lemma_key_is_hash();
            crate::rules::lemma_king_square_holds(self.state().board, self.state().side, 0);
            crate::rules::lemma_king_square_holds(self.state().board, opponent(self.state().side), 0);
        }
        let mover = self.side.not();
        let is_check = self.is_king_in_check(mover);
        self.unmake_move();
        assert(self.history_view() =~= hist);
        is_check
    }

    /// The pieces of the opponent of `color` that attack a square, as a bitboard.
    pub fn get_attacked_from(&self, square: BoardSquare, color: Color) -> (r: u64)
        requires
            square < 64,
        ensures
            forall|s: int|
                0 <= s < 64 ==> (#[trigger] bit_set(r, s) <==> (self.state().board[s] is Some
                    && self.state().board[s].unwrap().1 == opponent(color) && attacks(
                    self.state().board,
                    self.state().board[s].unwrap().0,
                    opponent(color),
                    s,
                    square as int,
                ))),
    {
        let them = color.not();
        let mut r: u64 = 0;
        let mut s: u8 = 0;
        proof {
            crate::rules::lemma_no_bits_in_zero();
        }
        while s < 64
            invariant
                s <= 64,
                square < 64,
                them == opponent(color),
                forall|t: int|
                    0 <= t < 64 ==> (#[trigger] bit_set(r, t) <==> (t < s && self.state().board[t] is Some
                        && self.state().board[t].unwrap().1 == them && attacks(
                        self.state().board,
                        self.state().board[t].unwrap().0,
                        them,
                        t,
                        square as int,
                    ))),
            decreases 64 - s,
        {
            let hit = match self.pieces[s as usize] {
                Some((p, c)) => c == them && attacks_on(&self.pieces, p, them, s, square),
                None => false,
            };
            if hit {
                let ghost before = r;
                r = r | (1u64 << s);
                assert forall|t: int| 0 <= t < 64 implies #[trigger] bit_set(r, t) == (bit_set(before, t) || t
                    == s) by {
                    lemma_bit_or(before, s as u64, t as u64);
                }
            }
            s = s + 1;
        }
        r
    }

    /// The opposing pieces that attack the king of `color`, as a bitboard.
    pub fn get_king_attacks(&self, color: Color) -> (r: u64)
        requires
            king_square(self.state().board, color) < 64,
        ensures
            forall|s: int|
                0 <= s < 64 ==> (#[trigger] bit_set(r, s) <==> (self.state().board[s] is Some
                    && self.state().board[s].unwrap().1 == opponent(color) && attacks(
                    self.state().board,
                    self.state().board[s].unwrap().0,
                    opponent(color),
                    s,
                    king_square(self.state().board, color),
                ))),
    {
        let king = self.get_king_position(color);
        self.get_attacked_from(king, color)
    }

    /// The squares the king of `color` sees along the lines a queen moves
    /// on, each line up to and including its first occupied square.
    pub fn get_king_visibility(&self, color: Color) -> (r: u64)
        requires
            king_square(self.state().board, color) < 64,
        ensures
            forall|s: int|
                0 <= s < 64 ==> (#[trigger] bit_set(r, s) <==> attacks(
                    self.state().board,
                    Piece::Queen,
                    color,
                    king_square(self.state().board, color),
                    s,
                )),
    {
        let king = self.get_king_position(color);
        let mut r: u64 = 0;
        let mut s: u8 = 0;
        proof {
            crate::rules::lemma_no_bits_in_zero();
        }
        while s < 64
            invariant
                s <= 64,
                king < 64,
                king as int == king_square(self.state().board, color),
                forall|t: int|
                    0 <= t < 64 ==> (#[trigger] bit_set(r, t) <==> (t < s && attacks(
                        self.state().board,
                        Piece::Queen,
                        color,
                        king as int,
                        t,
                    ))),
            decreases 64 - s,
        {
            if attacks_on(&self.pieces, Piece::Queen, color, king, s) {
                let ghost before = r;
                r = r | (1u64 << s);
                assert forall|t: int| 0 <= t < 64 implies #[trigger] bit_set(r, t) == (bit_set(before, t) || t
                    == s) by {
                    lemma_bit_or(before, s as u64, t as u64);
                }
            }
            s = s + 1;
        }
        r
    }

    /// Plays a sequence of moves, recording before each one the hash of the
    /// position it is made in.
    pub fn record_position_sequence(&mut self, moves: &[BoardMove]) -> (r: Vec<(u64, BoardMove)>)
        requires
            old(self).wf(),
            crate::rules::makeable_sequence(old(self).state(), moves@),
        ensures
            final(self).wf(),
            final(self).state() == crate::rules::state_after_all(old(self).state(), moves@),
            r@.len() == moves@.len(),
            forall|i: int|
                0 <= i < moves@.len() ==> #[trigger] r@[i] == (
                    position_hash(
                        old(self).hash_keys(),
                        crate::rules::state_after_all(old(self).state(), moves@.take(i)),
                    ),
                    moves@[i],
                ),
    {
        let ghost st0 = self.state();
        let ghost keys = self.hash_keys();
        let mut positions: Vec<(u64, BoardMove)> = Vec::new();
        let mut i: usize = 0;
        assert(moves@.take(0) =~= Seq::<u16>::empty());
        assert(moves@.skip(0) =~= moves@);
        while i < moves.len()
            invariant
                i <= moves@.len(),
                self.wf(),
                self.hash_keys() == keys,
                self.state() == crate::rules::state_after_all(st0, moves@.take(i as int)),
                crate::rules::makeable_sequence(self.state(), moves@.skip(i as int)),
                crate::rules::state_after_all(st0, moves@) == crate::rules::state_after_all(self.state(), moves@.skip(i as int)),
                positions@.len() == i,
                forall|k: int|
                    0 <= k < i ==> #[trigger] positions@[k] == (
                        position_hash(keys, crate::rules::state_after_all(st0, moves@.take(k))),
                        moves@[k],
                    ),
            decreases moves@.len() - i,
        {
            let board_move = moves[i];
            proof {
                self.lemma_key_is_hash();
                lemma_state_after_all_step(st0, moves@, i as int);
                assert(moves@.skip(i as int)[0] == board_move);
                assert(moves@.skip(i as int).drop_first() =~= moves@.skip(i + 1));
            }
            let zobrist_key = self.zobrist_key();
            positions.push((zobrist_key, board_move));
            self.make_move(board_move);
            i = i + 1;
        }
        assert(moves@.skip(moves@.len() as int) =~= Seq::<u16>::empty());
        assert(moves@.take(moves@.len() as int) =~= moves@);
        positions
    }

    /// Whether a move is legal in the position.
    pub fn is_legal(&self, board_move: BoardMove) -> (r: bool)
        requires
            self.wf(),
            king_square(self.state().board, self.state().side) < 64,
        ensures
            r == legal(self.state(), board_move),
    {
        proof {
            crate::perft::lemma_legal_moves_exact(self.state(), board_move);
        }
        let (n, moves) = self.get_moves();
        let mut i: usize = 0;
        while i < n
            invariant
                i <= n,
                n == moves@.len(),
                moves@ == legal_moves(self.state()),
                forall|j: int| 0 <= j < i ==> moves@[j] != board_move,
            decreases n - i,
        {
            if moves[i] == board_move {
                assert(legal_moves(self.state())[i as int] == board_move);
                assert(legal_moves(self.state()).contains(board_move));
                proof {
                    crate::perft::lemma_legal_moves_exact(self.state(), board_move);
                }
                return true;
            }
            i = i + 1;
        }
        false
    }

    /// Whether square `s` holds the piece `p` of color `c`.
    fn holds(&self, s: u8, p: Piece, c: Color) -> (r: bool)
        requires
            s < 64,
        ensures
            r == (self.state().board[s as int] == Some((p, c))),
    {
        match self.pieces[s as usize] {
            Some((q, d)) => q == p && d == c,
            None => false,
        }
    }

    /// Whether the position can arise in play (see `consistent`): one king
    /// per side, the side that just moved not in check, and the castling
    /// rights and the en-passant square backed by their pieces.
    pub fn is_consistent(&self) -> (r: bool)
        requires
            self.wf(),
        ensures
            r == consistent(self.state()),
    {
        proof {
            self.lemma_key_is_hash();
        }
        let ghost st = self.state();
        let ghost b = st.board;
        let wk = king_square_on(&self.pieces, Color::White);
        let bk = king_square_on(&self.pieces, Color::Black);
        if wk >= 64 || bk >= 64 {
            return false;
        }
        let mut s: u8 = 0;
        while s < 64
            invariant
                s <= 64,
                b == self.state().board,
                b.len() == 64,
                wk as int == king_square(b, Color::White),
                bk as int == king_square(b, Color::Black),
                forall|t: int|
                    0 <= t < s && (#[trigger] b[t]) is Some && b[t].unwrap().0 == Piece::King ==> t
                        == king_square(b, b[t].unwrap().1),
            decreases 64 - s,
        {
            if let Some((p, c)) = self.pieces[s as usize] {
                if p == Piece::King {
                    let k = match c {
                        Color::White => wk,
                        Color::Black => bk,
                    };
                    if s != k {
                        return false;
                    }
                }
            }
            s = s + 1;
        }
        let them_king = match self.side {
            Color::White => bk,
            Color::Black => wk,
        };
        if attacked_on(&self.pieces, them_king, self.side) {
            return false;
        }
        let f = self.castling_flags;
        if f & 4 != 0 && !(self.holds(4, Piece::King, Color::White) && self.holds(7, Piece::Rook, Color::White)) {
            return false;
        }
        if f & 8 != 0 && !(self.holds(4, Piece::King, Color::White) && self.holds(0, Piece::Rook, Color::White)) {
            return false;
        }
        if f & 1 != 0 && !(self.holds(60, Piece::King, Color::Black) && self.holds(63, Piece::Rook, Color::Black)) {
            return false;
        }
        if f & 2 != 0 && !(self.holds(60, Piece::King, Color::Black) && self.holds(56, Piece::Rook, Color::Black)) {
            return false;
        }
        let ep = self.en_passant_bitmap;
        let mut t: u8 = 0;
        while t < 64
            invariant
                t <= 64,
                st == self.state(),
                b == st.board,
                b.len() == 64,
                ep == st.ep,
                forall|u: int|
                    0 <= u < t && #[trigger] bit_set(ep, u) ==> {
                        &&& b[u] is None
                        &&& if st.side == Color::White {
                            rank_of(u) == 5 && b[u - 8] == Some((Piece::Pawn, Color::Black))
                        } else {
                            rank_of(u) == 2 && b[u + 8] == Some((Piece::Pawn, Color::White))
                        }
                    },
            decreases 64 - t,
        {
            if ep & (1u64 << t) != 0 {
                assert(bit_set(ep, t as int));
                if self.pieces[t as usize].is_some() {
                    return false;
                }
                let ok = match self.side {
                    Color::White => t / 8 == 5 && self.holds(t - 8, Piece::Pawn, Color::Black),
                    Color::Black => t / 8 == 2 && self.holds(t + 8, Piece::Pawn, Color::White),
                };
                if !ok {
                    return false;
                }
            } else {
                assert(!bit_set(ep, t as int));
            }
            t = t + 1;
        }
        true
    }

    /// Whether fifty moves passed without capture or pawn move (the clock
    /// counts halfmoves).
    pub fn is_fifty_move_rule(&self) -> (r: bool)
        ensures
            r == (self.state().halfmoves_since_capture >= 100),
    {
        self.halfmoves_since_capture >= 100
    }
}

} // verus!
