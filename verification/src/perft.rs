use vstd::prelude::*;
use crate::pieces::Piece;
use crate::board_move::{encode_move, move_from, move_to, move_promotion, lemma_encode_decode};
use crate::rules::{
    State, legal, legal_moves, moves_upto, moves_from, moves_between, slot_promotion, state_after,
    canonical, pseudo_legal, kind_at, holds_kind, moves_of_kinds,
};

verus! {

// The move list is exactly the set of legal moves, and the node counts of
// the move-path enumeration (perft) defined over it.

proof fn lemma_between_legal(st: State, from: int, to: int, j: int)
    ensures
        forall|i: int|
            0 <= i < moves_between(st, from, to, j).len() ==> legal(
                st,
                #[trigger] moves_between(st, from, to, j)[i],
            ),
    decreases j,
{
    if j > 0 {
        lemma_between_legal(st, from, to, j - 1);
        let prev = moves_between(st, from, to, j - 1);
        let cur = moves_between(st, from, to, j);
        assert forall|i: int| 0 <= i < cur.len() implies legal(st, #[trigger] cur[i]) by {
            if i < prev.len() {
                assert(cur[i] == prev[i]);
            }
        }
    }
}

proof fn lemma_from_legal(st: State, from: int, t: int)
    ensures
        forall|i: int| 0 <= i < moves_from(st, from, t).len() ==> legal(st, #[trigger] moves_from(st, from, t)[i]),
    decreases t,
{
    if t > 0 {
        lemma_from_legal(st, from, t - 1);
        lemma_between_legal(st, from, t - 1, 5);
        let a = moves_from(st, from, t - 1);
        let b = moves_between(st, from, t - 1, 5);
        assert forall|i: int| 0 <= i < moves_from(st, from, t).len() implies legal(
            st,
            #[trigger] moves_from(st, from, t)[i],
        ) by {
            if i < a.len() {
                assert(moves_from(st, from, t)[i] == a[i]);
            } else {
                assert(moves_from(st, from, t)[i] == b[i - a.len()]);
            }
        }
    }
}

proof fn lemma_upto_legal(st: State, f: int, k: Piece)
    ensures
        forall|i: int| 0 <= i < moves_upto(st, f, k).len() ==> legal(st, #[trigger] moves_upto(st, f, k)[i]),
    decreases f,
{
    if f > 0 {
        lemma_upto_legal(st, f - 1, k);
        lemma_from_legal(st, f - 1, 64);
        let a = moves_upto(st, f - 1, k);
        let b = if holds_kind(st, f - 1, k) {
            moves_from(st, f - 1, 64)
        } else {
            Seq::<u16>::empty()
        };
        assert(moves_upto(st, f, k) == a + b);
        assert forall|i: int| 0 <= i < moves_upto(st, f, k).len() implies legal(
            st,
            #[trigger] moves_upto(st, f, k)[i],
        ) by {
            if i < a.len() {
                assert(moves_upto(st, f, k)[i] == a[i]);
            } else {
                assert(moves_upto(st, f, k)[i] == b[i - a.len()]);
            }
        }
    }
}

proof fn lemma_kinds_legal(st: State, n: int)
    ensures
        forall|i: int| 0 <= i < moves_of_kinds(st, n).len() ==> legal(st, #[trigger] moves_of_kinds(st, n)[i]),
    decreases n,
{
    if n > 0 {
        lemma_kinds_legal(st, n - 1);
        lemma_upto_legal(st, 64, kind_at(n - 1));
        let a = moves_of_kinds(st, n - 1);
        let b = moves_upto(st, 64, kind_at(n - 1));
        assert forall|i: int| 0 <= i < moves_of_kinds(st, n).len() implies legal(
            st,
            #[trigger] moves_of_kinds(st, n)[i],
        ) by {
            if i < a.len() {
                assert(moves_of_kinds(st, n)[i] == a[i]);
            } else {
                assert(moves_of_kinds(st, n)[i] == b[i - a.len()]);
            }
        }
    }
}

/// Every move in the move list is legal.
pub proof fn lemma_legal_moves_legal(st: State)
    ensures
        forall|i: int| 0 <= i < legal_moves(st).len() ==> legal(st, #[trigger] legal_moves(st)[i]),
{
    lemma_kinds_legal(st, 6);
}

proof fn lemma_between_contains(st: State, from: int, to: int, j: int, k: int)
    requires
        0 <= j < k,
        legal(st, encode_move(from as u8, to as u8, slot_promotion(j))),
    ensures
        moves_between(st, from, to, k).contains(encode_move(from as u8, to as u8, slot_promotion(j))),
    decreases k,
{
    let m = encode_move(from as u8, to as u8, slot_promotion(j));
    if k - 1 == j {
        assert(moves_between(st, from, to, k).last() == m);
    } else {
        lemma_between_contains(st, from, to, j, k - 1);
        let prev = moves_between(st, from, to, k - 1);
        let w = choose|w: int| 0 <= w < prev.len() && prev[w] == m;
        assert(moves_between(st, from, to, k)[w] == m);
    }
}

proof fn lemma_from_contains(st: State, from: int, to: int, t: int, m: u16)
    requires
        0 <= to < t,
        moves_between(st, from, to, 5).contains(m),
    ensures
        moves_from(st, from, t).contains(m),
    decreases t,
{
    let a = moves_from(st, from, t - 1);
    let b = moves_between(st, from, t - 1, 5);
    if t - 1 == to {
        let w = choose|w: int| 0 <= w < b.len() && b[w] == m;
        assert(moves_from(st, from, t)[a.len() + w] == m);
    } else {
        lemma_from_contains(st, from, to, t - 1, m);
        let w = choose|w: int| 0 <= w < a.len() && a[w] == m;
        assert(moves_from(st, from, t)[w] == m);
    }
}

proof fn lemma_upto_contains(st: State, from: int, f: int, k: Piece, m: u16)
    requires
        0 <= from < f,
        holds_kind(st, from, k),
        moves_from(st, from, 64).contains(m),
    ensures
        moves_upto(st, f, k).contains(m),
    decreases f,
{
    let a = moves_upto(st, f - 1, k);
    if f - 1 == from {
        let b = moves_from(st, f - 1, 64);
        assert(moves_upto(st, f, k) == a + b);
        let w = choose|w: int| 0 <= w < b.len() && b[w] == m;
        assert(moves_upto(st, f, k)[a.len() + w] == m);
    } else {
        lemma_upto_contains(st, from, f - 1, k, m);
        let w = choose|w: int| 0 <= w < a.len() && a[w] == m;
        assert(moves_upto(st, f, k)[w] == m);
    }
}

proof fn lemma_kinds_contains(st: State, i: int, n: int, m: u16)
    requires
        0 <= i < n,
        moves_upto(st, 64, kind_at(i)).contains(m),
    ensures
        moves_of_kinds(st, n).contains(m),
    decreases n,
{
    let a = moves_of_kinds(st, n - 1);
    let b = moves_upto(st, 64, kind_at(n - 1));
    if n - 1 == i {
        let w = choose|w: int| 0 <= w < b.len() && b[w] == m;
        assert(moves_of_kinds(st, n)[a.len() + w] == m);
    } else {
        lemma_kinds_contains(st, i, n - 1, m);
        let w = choose|w: int| 0 <= w < a.len() && a[w] == m;
        assert(moves_of_kinds(st, n)[w] == m);
    }
}

/// The position of a piece kind in the move list's order of kinds.
pub open spec fn kind_index(p: Piece) -> int {
    match p {
        Piece::Pawn => 0,
        Piece::Knight => 1,
        Piece::Bishop => 2,
        Piece::Rook => 3,
        Piece::Queen => 4,
        Piece::King => 5,
    }
}

/// The move list holds exactly the legal moves.
pub proof fn lemma_legal_moves_exact(st: State, m: u16)
    ensures
        legal_moves(st).contains(m) <==> legal(st, m),
{
    lemma_legal_moves_legal(st);
    if legal(st, m) {
        let from = move_from(m) as int;
        let to = move_to(m) as int;
        let promo = move_promotion(m);
        let j: int = match promo {
            None => 0,
            Some(Piece::Queen) => 1,
            Some(Piece::Rook) => 2,
            Some(Piece::Bishop) => 3,
            Some(_) => 4,
        };
        assert(canonical(m));
        assert(promo matches Some(q) ==> crate::board_move::promotable(q));
        assert(slot_promotion(j) == promo);
        assert(m == encode_move(from as u8, to as u8, slot_promotion(j)));
        lemma_between_contains(st, from, to, j, 5);
        lemma_from_contains(st, from, to, 64, m);
        let p = st.board[from].unwrap().0;
        assert(kind_at(kind_index(p)) == p);
        lemma_upto_contains(st, from, 64, p, m);
        lemma_kinds_contains(st, kind_index(p), 6, m);
    }
}

/// Two lists without repeats and with no element in common make a list
/// without repeats.
proof fn lemma_concat_distinct(a: Seq<u16>, b: Seq<u16>)
    requires
        a.no_duplicates(),
        b.no_duplicates(),
        forall|i: int, j: int| 0 <= i < a.len() && 0 <= j < b.len() ==> #[trigger] a[i] != #[trigger] b[j],
    ensures
        (a + b).no_duplicates(),
{
    let c = a + b;
    assert forall|i: int, j: int| 0 <= i < c.len() && 0 <= j < c.len() && i != j implies c[i] != c[j] by {
        if i < a.len() && j < a.len() {
            assert(c[i] == a[i] && c[j] == a[j]);
        } else if i >= a.len() && j >= a.len() {
            assert(c[i] == b[i - a.len()] && c[j] == b[j - a.len()]);
        } else if i < a.len() {
            assert(c[i] == a[i] && c[j] == b[j - a.len()]);
        } else {
            assert(c[j] == a[j] && c[i] == b[i - a.len()]);
        }
    }
}

proof fn lemma_between_distinct(st: State, from: int, to: int, j: int)
    requires
        0 <= from < 64,
        0 <= to < 64,
        j <= 5,
    ensures
        moves_between(st, from, to, j).no_duplicates(),
        forall|i: int| 0 <= i < moves_between(st, from, to, j).len() ==> {
            &&& move_from(#[trigger] moves_between(st, from, to, j)[i]) == from
            &&& move_to(moves_between(st, from, to, j)[i]) == to
            &&& exists|k: int| 0 <= k < j && move_promotion(moves_between(st, from, to, j)[i]) == slot_promotion(k)
        },
    decreases j,
{
    if j > 0 {
        lemma_between_distinct(st, from, to, j - 1);
        let prev = moves_between(st, from, to, j - 1);
        let cur = moves_between(st, from, to, j);
        let p = slot_promotion(j - 1);
        let m = encode_move(from as u8, to as u8, p);
        assert(p matches Some(q) ==> crate::board_move::promotable(q));
        lemma_encode_decode(from as u8, to as u8, p);
        assert forall|i: int| 0 <= i < prev.len() implies #[trigger] prev[i] != m by {
            let k = choose|k: int| 0 <= k < j - 1 && move_promotion(prev[i]) == slot_promotion(k);
            assert(slot_promotion(k) != slot_promotion(j - 1));
        }
        assert forall|i: int| 0 <= i < cur.len() implies {
            &&& move_from(#[trigger] cur[i]) == from
            &&& move_to(cur[i]) == to
            &&& exists|k: int| 0 <= k < j && move_promotion(cur[i]) == slot_promotion(k)
        } by {
            if i < prev.len() {
                assert(cur[i] == prev[i]);
                let k = choose|k: int| 0 <= k < j - 1 && move_promotion(prev[i]) == slot_promotion(k);
                assert(0 <= k < j && move_promotion(cur[i]) == slot_promotion(k));
            } else {
                assert(cur[i] == m);
                assert(move_promotion(cur[i]) == slot_promotion(j - 1));
            }
        }
        if legal(st, m) {
            assert(cur == prev.push(m));
            assert forall|x: int, y: int| 0 <= x < cur.len() && 0 <= y < cur.len() && x != y implies cur[x] != cur[y] by {
                if x < prev.len() && y < prev.len() {
                    assert(cur[x] == prev[x] && cur[y] == prev[y]);
                } else if x < prev.len() {
                    assert(cur[x] == prev[x] && cur[y] == m);
                } else {
                    assert(cur[x] == m && cur[y] == prev[y]);
                }
            }
        }
    }
}

proof fn lemma_from_distinct(st: State, from: int, t: int)
    requires
        0 <= from < 64,
        t <= 64,
    ensures
        moves_from(st, from, t).no_duplicates(),
        forall|i: int| 0 <= i < moves_from(st, from, t).len() ==> move_from(#[trigger] moves_from(st, from, t)[i])
            == from && move_to(moves_from(st, from, t)[i]) < t,
    decreases t,
{
    if t > 0 {
        lemma_from_distinct(st, from, t - 1);
        lemma_between_distinct(st, from, t - 1, 5);
        let a = moves_from(st, from, t - 1);
        let b = moves_between(st, from, t - 1, 5);
        assert forall|i: int, j: int| 0 <= i < a.len() && 0 <= j < b.len() implies #[trigger] a[i] != #[trigger] b[j] by {
            assert(move_to(a[i]) < t - 1);
            assert(move_to(b[j]) == t - 1);
        }
        lemma_concat_distinct(a, b);
        assert forall|i: int| 0 <= i < moves_from(st, from, t).len() implies move_from(
            #[trigger] moves_from(st, from, t)[i],
        ) == from && move_to(moves_from(st, from, t)[i]) < t by {
            if i < a.len() {
                assert(moves_from(st, from, t)[i] == a[i]);
            } else {
                assert(moves_from(st, from, t)[i] == b[i - a.len()]);
            }
        }
    }
}

proof fn lemma_upto_distinct(st: State, f: int, k: Piece)
    requires
        f <= 64,
    ensures
        moves_upto(st, f, k).no_duplicates(),
        forall|i: int| 0 <= i < moves_upto(st, f, k).len() ==> move_from(#[trigger] moves_upto(st, f, k)[i]) < f
            && holds_kind(st, move_from(moves_upto(st, f, k)[i]) as int, k),
    decreases f,
{
    if f > 0 {
        lemma_upto_distinct(st, f - 1, k);
        let a = moves_upto(st, f - 1, k);
        let b = if holds_kind(st, f - 1, k) {
            moves_from(st, f - 1, 64)
        } else {
            Seq::<u16>::empty()
        };
        assert(moves_upto(st, f, k) == a + b);
        if holds_kind(st, f - 1, k) {
            lemma_from_distinct(st, f - 1, 64);
        }
        assert forall|i: int, j: int| 0 <= i < a.len() && 0 <= j < b.len() implies #[trigger] a[i] != #[trigger] b[j] by {
            assert(move_from(a[i]) < f - 1);
            assert(move_from(b[j]) == f - 1);
        }
        lemma_concat_distinct(a, b);
        assert forall|i: int| 0 <= i < moves_upto(st, f, k).len() implies move_from(#[trigger] moves_upto(st, f, k)[i])
            < f && holds_kind(st, move_from(moves_upto(st, f, k)[i]) as int, k) by {
            if i < a.len() {
                assert(moves_upto(st, f, k)[i] == a[i]);
            } else {
                assert(moves_upto(st, f, k)[i] == b[i - a.len()]);
            }
        }
    }
}

proof fn lemma_kinds_distinct(st: State, n: int)
    requires
        n <= 6,
    ensures
        moves_of_kinds(st, n).no_duplicates(),
        forall|i: int| 0 <= i < moves_of_kinds(st, n).len() ==> {
            &&& st.board[move_from(#[trigger] moves_of_kinds(st, n)[i]) as int] is Some
            &&& kind_index(st.board[move_from(moves_of_kinds(st, n)[i]) as int].unwrap().0) < n
        },
    decreases n,
{
    if n > 0 {
        lemma_kinds_distinct(st, n - 1);
        let k = kind_at(n - 1);
        lemma_upto_distinct(st, 64, k);
        assert(kind_index(k) == n - 1);
        let a = moves_of_kinds(st, n - 1);
        let b = moves_upto(st, 64, k);
        assert forall|i: int, j: int| 0 <= i < a.len() && 0 <= j < b.len() implies #[trigger] a[i] != #[trigger] b[j] by {
            assert(kind_index(st.board[move_from(a[i]) as int].unwrap().0) < n - 1);
            assert(holds_kind(st, move_from(b[j]) as int, k));
        }
        lemma_concat_distinct(a, b);
        assert forall|i: int| 0 <= i < moves_of_kinds(st, n).len() implies {
            &&& st.board[move_from(#[trigger] moves_of_kinds(st, n)[i]) as int] is Some
            &&& kind_index(st.board[move_from(moves_of_kinds(st, n)[i]) as int].unwrap().0) < n
        } by {
            if i < a.len() {
                assert(moves_of_kinds(st, n)[i] == a[i]);
            } else {
                assert(moves_of_kinds(st, n)[i] == b[i - a.len()]);
                assert(holds_kind(st, move_from(b[i - a.len()]) as int, k));
            }
        }
    }
}

/// The move list names no move twice.
pub proof fn lemma_legal_moves_distinct(st: State)
    ensures
        legal_moves(st).no_duplicates(),
{
    lemma_kinds_distinct(st, 6);
}

/// The number of move paths of length `d` from a position (leaf nodes of the
/// move tree of depth `d`).
pub open spec fn perft_nodes(st: State, d: nat) -> nat
    decreases d, 0nat,
{
    if d == 0 {
        1
    } else {
        moves_nodes(st, legal_moves(st), (d - 1) as nat)
    }
}

/// The sum of the node counts of depth `d` after each of the moves `ms`.
pub open spec fn moves_nodes(st: State, ms: Seq<u16>, d: nat) -> nat
    decreases d, ms.len() + 1,
{
    if ms.len() == 0 {
        0
    } else {
        moves_nodes(st, ms.drop_last(), d) + perft_nodes(state_after(st, ms.last()), d)
    }
}

/// The count a perft breakdown reports for one first move: the leaf nodes of
/// depth `depth - 1` after it, and 1 for depths 0 and 1.
pub open spec fn dfs_nodes(st: State, m: u16, depth: nat) -> nat {
    if depth <= 1 {
        1
    } else {
        perft_nodes(state_after(st, m), (depth - 1) as nat)
    }
}

/// At depth zero each move counts once.
pub proof fn lemma_moves_nodes_zero(st: State, ms: Seq<u16>)
    ensures
        moves_nodes(st, ms, 0) == ms.len(),
    decreases ms.len(),
{
    if ms.len() > 0 {
        lemma_moves_nodes_zero(st, ms.drop_last());
        assert(perft_nodes(state_after(st, ms.last()), 0) == 1);
    }
}

/// Adding the next move of a list to a prefix adds its count.
pub proof fn lemma_moves_nodes_step(st: State, ms: Seq<u16>, i: int, d: nat)
    requires
        0 <= i < ms.len(),
    ensures
        moves_nodes(st, ms.take(i + 1), d) == moves_nodes(st, ms.take(i), d) + perft_nodes(
            state_after(st, ms[i]),
            d,
        ),
{
    assert(ms.take(i + 1).drop_last() =~= ms.take(i));
}

/// The count of a prefix of a move list is at most that of the list.
pub proof fn lemma_moves_nodes_prefix(st: State, ms: Seq<u16>, i: int, d: nat)
    requires
        0 <= i <= ms.len(),
    ensures
        moves_nodes(st, ms.take(i), d) <= moves_nodes(st, ms, d),
    decreases ms.len() - i,
{
    if i < ms.len() {
        lemma_moves_nodes_step(st, ms, i, d);
        lemma_moves_nodes_prefix(st, ms, i + 1, d);
    } else {
        assert(ms.take(i) =~= ms);
    }
}

/// The count after one move is at most the sum over the list.
pub proof fn lemma_moves_nodes_term(st: State, ms: Seq<u16>, i: int, d: nat)
    requires
        0 <= i < ms.len(),
    ensures
        perft_nodes(state_after(st, ms[i]), d) <= moves_nodes(st, ms, d),
{
    lemma_moves_nodes_step(st, ms, i, d);
    lemma_moves_nodes_prefix(st, ms, i + 1, d);
}

} // verus!
