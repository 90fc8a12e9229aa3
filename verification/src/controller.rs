use vstd::prelude::*;
use crate::board::{Game, start_state, fen_state};
use crate::board_move::{BoardMove, spec_parse_move};
use crate::fen::fen_fields;
use crate::rules::{
    consistent, legal, legal_moves, state_after, entry_of, position_hash, king_square,
    lemma_legal_makeable, lemma_made_is_unmakeable, lemma_undo_restores,
};
use crate::consistency::lemma_legal_keeps_consistent;
use crate::perft::{
    perft_nodes, moves_nodes, dfs_nodes, lemma_legal_moves_legal, lemma_legal_moves_exact,
    lemma_moves_nodes_zero, lemma_moves_nodes_step, lemma_moves_nodes_prefix, lemma_moves_nodes_term,
};
use crate::repetition::{PositionHistory, occurrences};
use crate::tables::{PerftTable, perft_table_entries};
use crate::zobrist::ZobristKeys;
use vstd::wrapping::usize_specs;
use crate::fen::{parse_unsigned, parse_unsigned_exec, chars_of};
use crate::text::{str_eq, to_lowercase, lowercase};

verus! {

/// The outcome of trying a move given in long algebraic notation.
#[derive(Debug, Clone, Copy, PartialEq, Eq, Structural)]
pub enum MoveResultType {
    /// The move was legal and has been made.
    Success,
    /// The text is not a move.
    InvalidNotation,
    /// The move is not legal here.
    InvalidMove,
}

/// Why an option setting was refused.
#[derive(Debug, Clone, Copy, PartialEq, Eq, Structural)]
pub enum OptionError {
    /// `PerftHash` takes `true` or `false`.
    PerftHashValue,
    /// `Move Overhead` lies between 0 and 5000.
    MoveOverheadRange,
    /// `Move Overhead` takes a number.
    MoveOverheadNumber,
    /// `Hash` lies between 1 and 33554432.
    HashRange,
    /// `Hash` takes a number.
    HashNumber,
    /// `Threads` lies between 1 and 1024.
    ThreadsRange,
    /// `Threads` takes a number.
    ThreadsNumber,
    /// No option has that name.
    UnknownOption,
}

/// What setting an option did.
#[derive(Debug, Clone, Copy, PartialEq, Eq, Structural)]
pub enum OptionOutcome {
    /// The option took the value.
    Applied,
    /// The table size took the value; the transposition table is to be
    /// rebuilt with that size.
    HashResized(usize),
    /// A network is to be loaded from the file the value names.
    LoadNetwork,
    /// The value or the name was refused; nothing changed.
    Rejected(OptionError),
}

/// The outcome of setting the option named `name` (lowercased) to `value`,
/// whose lowercase form is `value_lower`.
pub open spec fn option_outcome(name: Seq<char>, value: Seq<char>, value_lower: Seq<char>) -> OptionOutcome {
    if name == "perfthash"@ {
        if value_lower == "true"@ || value_lower == "false"@ {
            OptionOutcome::Applied
        } else {
            OptionOutcome::Rejected(OptionError::PerftHashValue)
        }
    } else if name == "move overhead"@ {
        match parse_unsigned(value, u64::MAX as int) {
            Some(v) => if v <= 5000 {
                OptionOutcome::Applied
            } else {
                OptionOutcome::Rejected(OptionError::MoveOverheadRange)
            },
            None => OptionOutcome::Rejected(OptionError::MoveOverheadNumber),
        }
    } else if name == "hash"@ {
        match parse_unsigned(value, usize::MAX as int) {
            Some(v) => if 1 <= v <= 33554432 {
                OptionOutcome::HashResized(v as usize)
            } else {
                OptionOutcome::Rejected(OptionError::HashRange)
            },
            None => OptionOutcome::Rejected(OptionError::HashNumber),
        }
    } else if name == "threads"@ {
        match parse_unsigned(value, u64::MAX as int) {
            Some(v) => if 1 <= v <= 1024 {
                OptionOutcome::Applied
            } else {
                OptionOutcome::Rejected(OptionError::ThreadsRange)
            },
            None => OptionOutcome::Rejected(OptionError::ThreadsNumber),
        }
    } else if name == "nnue"@ {
        OptionOutcome::LoadNetwork
    } else {
        OptionOutcome::Rejected(OptionError::UnknownOption)
    }
}

/// The state a UCI session keeps between commands: the game, the hashes of
/// the positions played, and the engine options.
pub struct GameController {
    pub game: Game,
    /// Whether perft shares counts of transposed positions through a table.
    pub perft_hash: bool,
    /// Transposition table size as set by the `Hash` option.
    pub hash_table_size: usize,
    /// Milliseconds reserved per move for communication delays.
    pub move_overhead: u64,
    pub threads: u64,
    pub position_history: PositionHistory,
    /// Whether the `uci` command has initialized the session.
    pub initialized: bool,
}

/// The facts about a game that perft and move making rely on: its
/// bookkeeping is sound and its position can arise in play.
pub open spec fn playable(g: Game) -> bool {
    g.wf() && consistent(g.state())
}

/// What the table-sharing count gives for move `m` from `st` at `depth`,
/// starting from the table `t` (counts keyed by position hash xor depth),
/// with the table it leaves: a count found in the table is taken as it is;
/// otherwise the count is computed (the number of replies at depth two, the
/// wrapping sum over the replies deeper) and stored under its key.
pub open spec fn shared_count(
    keys: ZobristKeys,
    st: crate::rules::State,
    m: u16,
    depth: nat,
    t: Map<u64, usize>,
) -> (usize, Map<u64, usize>)
    decreases depth, 0nat,
{
    if depth <= 1 {
        (1, t)
    } else {
        let after = state_after(st, m);
        let k = position_hash(keys, after) ^ (depth as u64);
        if t.dom().contains(k) {
            (t[k], t)
        } else if depth == 2 {
            let c = legal_moves(after).len() as usize;
            (c, t.insert(k, c))
        } else {
            let s = shared_sum(keys, after, (depth - 1) as nat, t, legal_moves(after).len());
            (s.0, s.1.insert(k, s.0))
        }
    }
}

/// The wrapping sum of the table-sharing counts of the first `n` legal moves
/// of `st`, in order, each starting from the table the one before left, with
/// the table left at the end.
pub open spec fn shared_sum(
    keys: ZobristKeys,
    st: crate::rules::State,
    depth: nat,
    t: Map<u64, usize>,
    n: nat,
) -> (usize, Map<u64, usize>)
    decreases depth, n + 1,
{
    if n == 0 {
        (0, t)
    } else {
        let prev = shared_sum(keys, st, depth, t, (n - 1) as nat);
        let c = shared_count(keys, st, legal_moves(st)[n - 1], depth, prev.1);
        (usize_specs::wrapping_add(prev.0, c.0), c.1)
    }
}

/// The table the table-sharing counts leave after the first `n` legal moves
/// of `st`, starting from an empty table.
pub open spec fn root_table(keys: ZobristKeys, st: crate::rules::State, depth: nat, n: nat) -> Map<u64, usize>
    decreases n,
{
    if n == 0 {
        Map::empty()
    } else {
        shared_count(keys, st, legal_moves(st)[n - 1], depth, root_table(keys, st, depth, (n - 1) as nat)).1
    }
}

/// The table-sharing count of the `i`-th legal move of `st`, with the table
/// the moves before it left.
pub open spec fn root_count(keys: ZobristKeys, st: crate::rules::State, depth: nat, i: nat) -> usize {
    shared_count(keys, st, legal_moves(st)[i as int], depth, root_table(keys, st, depth, i)).0
}

/// The parts of a state that moves depend on: the board, the side to move,
/// the castling rights and the en-passant square (not the clocks).
pub open spec fn same_position(a: crate::rules::State, b: crate::rules::State) -> bool {
    a.board == b.board && a.side == b.side && a.castling == b.castling && a.ep == b.ep
}

/// The key the table-sharing count files a position under at a depth.
pub open spec fn node_key(keys: ZobristKeys, st: crate::rules::State, depth: nat) -> u64 {
    position_hash(keys, st) ^ (depth as u64)
}

/// The (position, depth) pairs whose counts the table-sharing count of move
/// `m` from `st` at `depth` looks up or stores.
pub open spec fn shared_nodes(st: crate::rules::State, m: u16, depth: nat) -> Set<(crate::rules::State, nat)>
    decreases depth, 0nat,
{
    if depth <= 1 {
        Set::empty()
    } else {
        let after = state_after(st, m);
        if depth == 2 {
            Set::empty().insert((after, depth))
        } else {
            shared_nodes_upto(after, (depth - 1) as nat, legal_moves(after).len()).insert((after, depth))
        }
    }
}

/// The pairs that the table-sharing counts of the first `n` legal moves of
/// `st` look up or store.
pub open spec fn shared_nodes_upto(st: crate::rules::State, depth: nat, n: nat) -> Set<(crate::rules::State, nat)>
    decreases depth, n + 1,
{
    if n == 0 {
        Set::empty()
    } else {
        shared_nodes_upto(st, depth, (n - 1) as nat).union(shared_nodes(st, legal_moves(st)[n - 1], depth))
    }
}

/// No two of the pairs share a key unless they hold the same position at
/// the same depth.
pub open spec fn keys_distinct(keys: ZobristKeys, nodes: Set<(crate::rules::State, nat)>) -> bool {
    forall|a: (crate::rules::State, nat), b: (crate::rules::State, nat)|
        #[trigger] nodes.contains(a) && #[trigger] nodes.contains(b) && node_key(keys, a.0, a.1) == node_key(
            keys,
            b.0,
            b.1,
        ) ==> same_position(a.0, b.0) && a.1 == b.1
}

/// Every pair whose key the table holds has its count there: the number of
/// leaf nodes one ply less deep.
pub open spec fn table_sound(keys: ZobristKeys, t: Map<u64, usize>, nodes: Set<(crate::rules::State, nat)>) -> bool {
    forall|a: (crate::rules::State, nat)|
        #[trigger] nodes.contains(a) && t.dom().contains(node_key(keys, a.0, a.1)) ==> t[node_key(
            keys,
            a.0,
            a.1,
        )] as nat == perft_nodes(a.0, (a.1 - 1) as nat)
}

proof fn lemma_same_position_legal(a: crate::rules::State, b: crate::rules::State, m: u16)
    requires
        same_position(a, b),
    ensures
        legal(a, m) == legal(b, m),
        same_position(state_after(a, m), state_after(b, m)),
{
}

proof fn lemma_same_position_between(a: crate::rules::State, b: crate::rules::State, from: int, to: int, j: int)
    requires
        same_position(a, b),
    ensures
        crate::rules::moves_between(a, from, to, j) == crate::rules::moves_between(b, from, to, j),
    decreases j,
{
    if j > 0 {
        lemma_same_position_between(a, b, from, to, j - 1);
        lemma_same_position_legal(a, b, crate::board_move::encode_move(from as u8, to as u8, crate::rules::slot_promotion(j - 1)));
    }
}

proof fn lemma_same_position_from(a: crate::rules::State, b: crate::rules::State, from: int, t: int)
    requires
        same_position(a, b),
    ensures
        crate::rules::moves_from(a, from, t) == crate::rules::moves_from(b, from, t),
    decreases t,
{
    if t > 0 {
        lemma_same_position_from(a, b, from, t - 1);
        lemma_same_position_between(a, b, from, t - 1, 5);
    }
}

proof fn lemma_same_position_upto(a: crate::rules::State, b: crate::rules::State, f: int, k: crate::pieces::Piece)
    requires
        same_position(a, b),
    ensures
        crate::rules::moves_upto(a, f, k) == crate::rules::moves_upto(b, f, k),
    decreases f,
{
    if f > 0 {
        lemma_same_position_upto(a, b, f - 1, k);
        lemma_same_position_from(a, b, f - 1, 64);
    }
}

proof fn lemma_same_position_kinds(a: crate::rules::State, b: crate::rules::State, n: int)
    requires
        same_position(a, b),
    ensures
        crate::rules::moves_of_kinds(a, n) == crate::rules::moves_of_kinds(b, n),
    decreases n,
{
    if n > 0 {
        lemma_same_position_kinds(a, b, n - 1);
        lemma_same_position_upto(a, b, 64, crate::rules::kind_at(n - 1));
    }
}

/// Two states holding the same position have the same leaf counts.
proof fn lemma_same_position_perft(a: crate::rules::State, b: crate::rules::State, d: nat)
    requires
        same_position(a, b),
    ensures
        perft_nodes(a, d) == perft_nodes(b, d),
    decreases d, 0nat,
{
    if d > 0 {
        lemma_same_position_kinds(a, b, 6);
        lemma_same_position_moves(a, b, legal_moves(a), (d - 1) as nat);
    }
}

proof fn lemma_same_position_moves(a: crate::rules::State, b: crate::rules::State, ms: Seq<u16>, d: nat)
    requires
        same_position(a, b),
    ensures
        moves_nodes(a, ms, d) == moves_nodes(b, ms, d),
    decreases d, ms.len() + 1,
{
    if ms.len() > 0 {
        lemma_same_position_moves(a, b, ms.drop_last(), d);
        lemma_same_position_legal(a, b, ms.last());
        lemma_same_position_perft(state_after(a, ms.last()), state_after(b, ms.last()), d);
    }
}

/// Storing the count of a pair keeps a sound table sound.
proof fn lemma_table_insert_sound(
    keys: ZobristKeys,
    t: Map<u64, usize>,
    nodes: Set<(crate::rules::State, nat)>,
    s: crate::rules::State,
    d: nat,
    c: usize,
)
    requires
        table_sound(keys, t, nodes),
        keys_distinct(keys, nodes),
        nodes.contains((s, d)),
        c as nat == perft_nodes(s, (d - 1) as nat),
    ensures
        table_sound(keys, t.insert(node_key(keys, s, d), c), nodes),
{
    let t2 = t.insert(node_key(keys, s, d), c);
    assert forall|a: (crate::rules::State, nat)|
        #[trigger] nodes.contains(a) && t2.dom().contains(node_key(keys, a.0, a.1)) implies t2[node_key(
            keys,
            a.0,
            a.1,
        )] as nat == perft_nodes(a.0, (a.1 - 1) as nat) by {
        if node_key(keys, a.0, a.1) == node_key(keys, s, d) {
            assert(nodes.contains((s, d)));
            assert(same_position(a.0, s) && a.1 == d);
            lemma_same_position_perft(a.0, s, (d - 1) as nat);
        }
    }
}

/// Without colliding keys, the table-sharing count of a move is its leaf
/// count, and the table stays sound.
proof fn lemma_shared_count_exact(
    keys: ZobristKeys,
    st: crate::rules::State,
    m: u16,
    depth: nat,
    t: Map<u64, usize>,
    nodes: Set<(crate::rules::State, nat)>,
)
    requires
        shared_nodes(st, m, depth).subset_of(nodes),
        keys_distinct(keys, nodes),
        table_sound(keys, t, nodes),
        dfs_nodes(st, m, depth) <= usize::MAX,
    ensures
        shared_count(keys, st, m, depth, t).0 as nat == dfs_nodes(st, m, depth),
        table_sound(keys, shared_count(keys, st, m, depth, t).1, nodes),
    decreases depth, 0nat,
{
    if depth > 1 {
        let after = state_after(st, m);
        let k = node_key(keys, after, depth);
        assert(shared_nodes(st, m, depth).contains((after, depth)));
        assert(nodes.contains((after, depth)));
        assert(k == position_hash(keys, after) ^ (depth as u64));
        if t.dom().contains(k) {
        } else if depth == 2 {
            lemma_moves_nodes_zero(after, legal_moves(after));
            lemma_table_insert_sound(keys, t, nodes, after, depth, legal_moves(after).len() as usize);
        } else {
            let lm = legal_moves(after);
            assert(shared_nodes_upto(after, (depth - 1) as nat, lm.len()).subset_of(nodes));
            assert(lm.take(lm.len() as int) =~= lm);
            lemma_shared_sum_exact(keys, after, (depth - 1) as nat, t, lm.len(), nodes);
            let s = shared_sum(keys, after, (depth - 1) as nat, t, lm.len());
            lemma_table_insert_sound(keys, s.1, nodes, after, depth, s.0);
        }
    }
}

/// Without colliding keys, the table-sharing sum over the first `n` legal
/// moves is the sum of their leaf counts, and the table stays sound.
proof fn lemma_shared_sum_exact(
    keys: ZobristKeys,
    st: crate::rules::State,
    depth: nat,
    t: Map<u64, usize>,
    n: nat,
    nodes: Set<(crate::rules::State, nat)>,
)
    requires
        n <= legal_moves(st).len(),
        depth >= 1,
        shared_nodes_upto(st, depth, n).subset_of(nodes),
        keys_distinct(keys, nodes),
        table_sound(keys, t, nodes),
        moves_nodes(st, legal_moves(st).take(n as int), (depth - 1) as nat) <= usize::MAX,
    ensures
        shared_sum(keys, st, depth, t, n).0 as nat == moves_nodes(st, legal_moves(st).take(n as int), (depth - 1) as nat),
        table_sound(keys, shared_sum(keys, st, depth, t, n).1, nodes),
    decreases depth, n + 1,
{
    let lm = legal_moves(st);
    if n == 0 {
        assert(lm.take(0) =~= Seq::<u16>::empty());
    } else {
        let d1 = (depth - 1) as nat;
        lemma_moves_nodes_step(st, lm, n - 1, d1);
        assert(shared_nodes_upto(st, depth, (n - 1) as nat).subset_of(nodes));
        lemma_shared_sum_exact(keys, st, depth, t, (n - 1) as nat, nodes);
        let prev = shared_sum(keys, st, depth, t, (n - 1) as nat);
        assert(shared_nodes(st, lm[n - 1], depth).subset_of(nodes));
        lemma_shared_count_exact(keys, st, lm[n - 1], depth, prev.1, nodes);
    }
}

/// The pairs of a prefix of the moves are among those of all the moves, as
/// are those of each move.
proof fn lemma_shared_nodes_upto_grow(st: crate::rules::State, depth: nat, i: nat, n: nat)
    requires
        i <= n,
    ensures
        shared_nodes_upto(st, depth, i).subset_of(shared_nodes_upto(st, depth, n)),
        i < n ==> shared_nodes(st, legal_moves(st)[i as int], depth).subset_of(shared_nodes_upto(st, depth, n)),
    decreases n,
{
    if i < n {
        lemma_shared_nodes_upto_grow(st, depth, i, (n - 1) as nat);
    }
}

proof fn lemma_root_table_sound(
    keys: ZobristKeys,
    st: crate::rules::State,
    depth: nat,
    n: nat,
    nodes: Set<(crate::rules::State, nat)>,
)
    requires
        n <= legal_moves(st).len(),
        shared_nodes_upto(st, depth, n).subset_of(nodes),
        keys_distinct(keys, nodes),
        perft_nodes(st, depth) <= usize::MAX,
    ensures
        table_sound(keys, root_table(keys, st, depth, n), nodes),
    decreases n,
{
    if n > 0 {
        let lm = legal_moves(st);
        lemma_shared_nodes_upto_grow(st, depth, (n - 1) as nat, n);
        lemma_root_table_sound(keys, st, depth, (n - 1) as nat, nodes);
        if depth >= 1 {
            lemma_moves_nodes_term(st, lm, n - 1, (depth - 1) as nat);
        }
        lemma_shared_count_exact(keys, st, lm[n - 1], depth, root_table(keys, st, depth, (n - 1) as nat), nodes);
    }
}

/// Counting with a shared table gives the same breakdown as counting
/// without one, when no two of the positions the counts look up share a
/// key (hash xor depth) without being the same position at the same
/// depth, and the total fits a `usize`: the count of each first move is
/// its number of leaf nodes.
pub proof fn lemma_shared_counts_exact(keys: ZobristKeys, st: crate::rules::State, depth: nat, i: nat)
    requires
        i < legal_moves(st).len(),
        keys_distinct(keys, shared_nodes_upto(st, depth, legal_moves(st).len())),
        perft_nodes(st, depth) <= usize::MAX,
    ensures
        root_count(keys, st, depth, i) as nat == dfs_nodes(st, legal_moves(st)[i as int], depth),
{
    let lm = legal_moves(st);
    let nodes = shared_nodes_upto(st, depth, lm.len());
    lemma_shared_nodes_upto_grow(st, depth, i, lm.len());
    lemma_root_table_sound(keys, st, depth, i, nodes);
    if depth >= 1 {
        lemma_moves_nodes_term(st, lm, i as int, (depth - 1) as nat);
    }
    lemma_shared_count_exact(keys, st, lm[i as int], depth, root_table(keys, st, depth, i), nodes);
}

impl GameController {
    /// A session on the starting position with the default options.
    pub fn new() -> (r: Self)
        ensures
            r.game.wf(),
            r.game.state() == start_state(),
            r.game.history_view().len() == 0,
            r.perft_hash,
            r.hash_table_size == 128,
            r.move_overhead == 10,
            r.threads == 1,
            r.position_history.wf(),
            r.position_history@ == Seq::<u64>::empty(),
            !r.initialized,
    {
        GameController {
            game: Game::new(None),
            perft_hash: true,
            hash_table_size: 128,
            move_overhead: 10,
            threads: 1,
            position_history: PositionHistory::new(),
            initialized: false,
        }
    }

    /// Puts the starting position on the board and starts a new history
    /// holding its hash.
    pub fn reset_board(&mut self)
        ensures
            final(self).game.wf(),
            final(self).game.state() == start_state(),
            final(self).game.history_view().len() == 0,
            final(self).position_history.wf(),
            final(self).position_history@ == seq![final(self).game.key()],
            final(self).perft_hash == old(self).perft_hash,
            final(self).hash_table_size == old(self).hash_table_size,
            final(self).move_overhead == old(self).move_overhead,
            final(self).threads == old(self).threads,
            final(self).initialized == old(self).initialized,
    {
        self.game = Game::new(None);
        self.position_history = PositionHistory::new();
        let key = self.game.zobrist_key();
        self.position_history.push(key);
        assert(self.position_history@ =~= seq![self.game.key()]);
    }

    /// Puts a position given in FEN on the board and starts a new history
    /// holding its hash.
    pub fn set_board_from_fen(&mut self, fen: &str)
        requires
            fen_fields(fen@) is Some,
        ensures
            final(self).game.wf(),
            final(self).game.state() == fen_state(fen_fields(fen@).unwrap()),
            final(self).game.history_view().len() == 0,
            final(self).position_history.wf(),
            final(self).position_history@ == seq![final(self).game.key()],
            final(self).perft_hash == old(self).perft_hash,
            final(self).hash_table_size == old(self).hash_table_size,
            final(self).move_overhead == old(self).move_overhead,
            final(self).threads == old(self).threads,
            final(self).initialized == old(self).initialized,
    {
        self.game = Game::new(Some(fen));
        self.position_history = PositionHistory::new();
        let key = self.game.zobrist_key();
        self.position_history.push(key);
        assert(self.position_history@ =~= seq![self.game.key()]);
    }

    /// Marks the session as initialized and resets the board.
    pub fn initialize(&mut self)
        ensures
            final(self).initialized,
            final(self).game.wf(),
            final(self).game.state() == start_state(),
            final(self).game.history_view().len() == 0,
            final(self).position_history.wf(),
            final(self).position_history@ == seq![final(self).game.key()],
            final(self).perft_hash == old(self).perft_hash,
            final(self).hash_table_size == old(self).hash_table_size,
            final(self).move_overhead == old(self).move_overhead,
            final(self).threads == old(self).threads,
    {
        self.initialized = true;
        self.reset_board();
    }

    /// Whether the session has been initialized.
    pub fn is_initialized(&self) -> (r: bool)
        ensures
            r == self.initialized,
    {
        self.initialized
    }

    /// Sets an option from a `setoption` command, comparing the name, and
    /// for `PerftHash` the value, without regard to case.
    pub fn set_option(&mut self, name: &str, value: &str) -> (r: OptionOutcome)
        ensures
            r == option_outcome(lowercase(name@), value@, lowercase(value@)),
            final(self).perft_hash == (if lowercase(name@) == "perfthash"@ && r == OptionOutcome::Applied {
                lowercase(value@) == "true"@
            } else {
                old(self).perft_hash
            }),
            final(self).move_overhead == (if lowercase(name@) == "move overhead"@ && r
                == OptionOutcome::Applied {
                parse_unsigned(value@, u64::MAX as int).unwrap() as u64
            } else {
                old(self).move_overhead
            }),
            final(self).hash_table_size == (match r {
                OptionOutcome::HashResized(v) => v,
                _ => old(self).hash_table_size,
            }),
            final(self).threads == (if lowercase(name@) == "threads"@ && r == OptionOutcome::Applied {
                parse_unsigned(value@, u64::MAX as int).unwrap() as u64
            } else {
                old(self).threads
            }),
            final(self).game == old(self).game,
            final(self).position_history == old(self).position_history,
            final(self).initialized == old(self).initialized,
    {
        let name_lower = to_lowercase(name);
        let value_lower = to_lowercase(value);
        self.apply_option(name_lower.as_str(), value, value_lower.as_str())
    }

    /// Sets the option named `name` (already lowercase) to `value`, whose
    /// lowercase form is `value_lower`.
    pub fn apply_option(&mut self, name: &str, value: &str, value_lower: &str) -> (r: OptionOutcome)
        ensures
            r == option_outcome(name@, value@, value_lower@),
            final(self).perft_hash == (if name@ == "perfthash"@ && r == OptionOutcome::Applied {
                value_lower@ == "true"@
            } else {
                old(self).perft_hash
            }),
            final(self).move_overhead == (if name@ == "move overhead"@ && r == OptionOutcome::Applied {
                parse_unsigned(value@, u64::MAX as int).unwrap() as u64
            } else {
                old(self).move_overhead
            }),
            final(self).hash_table_size == (match r {
                OptionOutcome::HashResized(v) => v,
                _ => old(self).hash_table_size,
            }),
            final(self).threads == (if name@ == "threads"@ && r == OptionOutcome::Applied {
                parse_unsigned(value@, u64::MAX as int).unwrap() as u64
            } else {
                old(self).threads
            }),
            final(self).game == old(self).game,
            final(self).position_history == old(self).position_history,
            final(self).initialized == old(self).initialized,
    {
        proof {
            reveal_strlit("perfthash");
            reveal_strlit("move overhead");
            reveal_strlit("hash");
            reveal_strlit("threads");
            reveal_strlit("nnue");
            assert("perfthash"@.len() == 9);
            assert("move overhead"@.len() == 13);
            assert("hash"@.len() == 4 && "hash"@[0] == 'h');
            assert("threads"@.len() == 7);
            assert("nnue"@.len() == 4 && "nnue"@[0] == 'n');
        }
        let digits = chars_of(value);
        if str_eq(name, "perfthash") {
            if str_eq(value_lower, "true") {
                self.perft_hash = true;
                OptionOutcome::Applied
            } else if str_eq(value_lower, "false") {
                self.perft_hash = false;
                OptionOutcome::Applied
            } else {
                OptionOutcome::Rejected(OptionError::PerftHashValue)
            }
        } else if str_eq(name, "move overhead") {
            match parse_unsigned_exec(digits.as_slice(), u64::MAX) {
                Some(overhead) => if overhead <= 5000 {
                    self.move_overhead = overhead;
                    OptionOutcome::Applied
                } else {
                    OptionOutcome::Rejected(OptionError::MoveOverheadRange)
                },
                None => OptionOutcome::Rejected(OptionError::MoveOverheadNumber),
            }
        } else if str_eq(name, "hash") {
            match parse_unsigned_exec(digits.as_slice(), usize::MAX as u64) {
                Some(val) => if 1 <= val && val <= 33554432 {
                    self.hash_table_size = val as usize;
                    OptionOutcome::HashResized(val as usize)
                } else {
                    OptionOutcome::Rejected(OptionError::HashRange)
                },
                None => OptionOutcome::Rejected(OptionError::HashNumber),
            }
        } else if str_eq(name, "threads") {
            match parse_unsigned_exec(digits.as_slice(), u64::MAX) {
                Some(threads) => if 1 <= threads && threads <= 1024 {
                    self.threads = threads;
                    OptionOutcome::Applied
                } else {
                    OptionOutcome::Rejected(OptionError::ThreadsRange)
                },
                None => OptionOutcome::Rejected(OptionError::ThreadsNumber),
            }
        } else if str_eq(name, "nnue") {
            OptionOutcome::LoadNetwork
        } else {
            OptionOutcome::Rejected(OptionError::UnknownOption)
        }
    }

    /// Makes a move given in long algebraic notation if it is legal, and
    /// records the new position's hash.
    pub fn try_move_piece(&mut self, long_algebraic_notation: &str) -> (r: MoveResultType)
        requires
            playable(old(self).game),
            old(self).position_history.wf(),
            old(self).position_history@.len() < u32::MAX,
        ensures
            final(self).game.wf(),
            final(self).position_history.wf(),
            final(self).perft_hash == old(self).perft_hash,
            final(self).hash_table_size == old(self).hash_table_size,
            final(self).move_overhead == old(self).move_overhead,
            final(self).threads == old(self).threads,
            final(self).initialized == old(self).initialized,
            match spec_parse_move(long_algebraic_notation@) {
                None => {
                    &&& r == MoveResultType::InvalidNotation
                    &&& final(self).game == old(self).game
                    &&& final(self).position_history == old(self).position_history
                },
                Some(m) => if legal(old(self).game.state(), m) {
                    &&& r == MoveResultType::Success
                    &&& final(self).game.state() == state_after(old(self).game.state(), m)
                    &&& final(self).game.history_view() == old(self).game.history_view().push(
                        entry_of(old(self).game.state(), m),
                    )
                    &&& final(self).position_history@ == old(self).position_history@.push(
                        final(self).game.key(),
                    )
                    &&& consistent(final(self).game.state())
                } else {
                    &&& r == MoveResultType::InvalidMove
                    &&& final(self).game == old(self).game
                    &&& final(self).position_history == old(self).position_history
                },
            },
    {
        match crate::board_move::parse(long_algebraic_notation) {
            Some(board_move) => {
                let ghost st = self.game.state();
                proof {
                    self.game.lemma_key_is_hash();
                    crate::rules::lemma_king_square_holds(st.board, st.side, 0);
                    lemma_legal_moves_exact(st, board_move);
                }
                let (move_count, valid_moves) = self.game.get_moves();
                let mut found = false;
                let mut i: usize = 0;
                while i < move_count
                    invariant
                        i <= move_count,
                        move_count == valid_moves@.len(),
                        found == valid_moves@.take(i as int).contains(board_move),
                    decreases move_count - i,
                {
                    proof {
                        assert(valid_moves@.take(i + 1) =~= valid_moves@.take(i as int).push(valid_moves@[i as int]));
                        lemma_contains_push(valid_moves@.take(i as int), valid_moves@[i as int], board_move);
                    }
                    if valid_moves[i] == board_move {
                        found = true;
                    }
                    i = i + 1;
                }
                assert(valid_moves@.take(move_count as int) =~= valid_moves@);
                if found {
                    proof {
                        lemma_legal_makeable(st, board_move);
                        lemma_legal_keeps_consistent(st, board_move);
                    }
                    self.game.make_move(board_move);
                    let key = self.game.zobrist_key();
                    proof {
                        assert(occurrences(self.position_history@, key) <= self.position_history@.len())
                            by {
                            lemma_occurrences_bound(self.position_history@, key);
                        }
                    }
                    self.position_history.push(key);
                    MoveResultType::Success
                } else {
                    MoveResultType::InvalidMove
                }
            },
            None => MoveResultType::InvalidNotation,
        }
    }

    /// The perft breakdown: each legal move with the number of move paths of
    /// the given depth that start with it, sharing counts of transposed
    /// positions through a table when `perft_hash` is set.
    pub fn perft(&mut self, depth: usize) -> (r: Vec<(BoardMove, usize)>)
        requires
            playable(old(self).game),
            perft_nodes(old(self).game.state(), depth as nat) <= usize::MAX,
        ensures
            final(self).game.wf(),
            final(self).game.state() == old(self).game.state(),
            final(self).game.history_view() == old(self).game.history_view(),
            final(self).perft_hash == old(self).perft_hash,
            final(self).position_history == old(self).position_history,
            r@.len() == legal_moves(old(self).game.state()).len(),
            forall|i: int|
                0 <= i < r@.len() ==> (#[trigger] r@[i]).0 == legal_moves(old(self).game.state())[i],
            !old(self).perft_hash ==> forall|i: int|
                0 <= i < r@.len() ==> (#[trigger] r@[i]).1 == dfs_nodes(
                    old(self).game.state(),
                    legal_moves(old(self).game.state())[i],
                    depth as nat,
                ),
            old(self).perft_hash ==> forall|i: int|
                0 <= i < r@.len() ==> (#[trigger] r@[i]).1 == root_count(
                    old(self).game.hash_keys(),
                    old(self).game.state(),
                    depth as nat,
                    i as nat,
                ),
    {
        let hashing = self.perft_hash;
        Self::perft_with_hashing(&mut self.game, depth, hashing)
    }

    /// The perft breakdown, with or without the table of counted positions.
    fn perft_with_hashing(game: &mut Game, depth: usize, hashing: bool) -> (r: Vec<(BoardMove, usize)>)
        requires
            playable(*old(game)),
            perft_nodes(old(game).state(), depth as nat) <= usize::MAX,
        ensures
            final(game).wf(),
            final(game).state() == old(game).state(),
            final(game).history_view() == old(game).history_view(),
            r@.len() == legal_moves(old(game).state()).len(),
            forall|i: int| 0 <= i < r@.len() ==> (#[trigger] r@[i]).0 == legal_moves(old(game).state())[i],
            !hashing ==> forall|i: int|
                0 <= i < r@.len() ==> (#[trigger] r@[i]).1 == dfs_nodes(
                    old(game).state(),
                    legal_moves(old(game).state())[i],
                    depth as nat,
                ),
            hashing ==> forall|i: int|
                0 <= i < r@.len() ==> (#[trigger] r@[i]).1 == root_count(
                    old(game).hash_keys(),
                    old(game).state(),
                    depth as nat,
                    i as nat,
                ),
    {
        let ghost st = game.state();
        let ghost hist = game.history_view();
        let ghost keys = game.hash_keys();
        let mut table = PerftTable::new();
        assert(perft_table_entries(table) =~= root_table(keys, st, depth as nat, 0));
        let mut move_breakdown: Vec<(BoardMove, usize)> = Vec::new();
        proof {
            game.lemma_key_is_hash();
            crate::rules::lemma_king_square_holds(st.board, st.side, 0);
            lemma_legal_moves_legal(st);
        }
        let (move_count, valid_moves) = game.get_moves();
        let mut i: usize = 0;
        while i < move_count
            invariant
                i <= move_count,
                move_count == valid_moves@.len(),
                valid_moves@ == legal_moves(st),
                game.wf(),
                game.state() == st,
                game.history_view() == hist,
                consistent(st),
                perft_nodes(st, depth as nat) <= usize::MAX,
                forall|k: int| 0 <= k < valid_moves@.len() ==> legal(st, #[trigger] valid_moves@[k]),
                move_breakdown@.len() == i,
                forall|k: int| 0 <= k < i ==> (#[trigger] move_breakdown@[k]).0 == valid_moves@[k],
                !hashing ==> forall|k: int|
                    0 <= k < i ==> (#[trigger] move_breakdown@[k]).1 == dfs_nodes(st, valid_moves@[k], depth as nat),
                hashing ==> game.hash_keys() == keys,
                hashing ==> perft_table_entries(table) == root_table(keys, st, depth as nat, i as nat),
                hashing ==> forall|k: int|
                    0 <= k < i ==> (#[trigger] move_breakdown@[k]).1 == root_count(keys, st, depth as nat, k as nat),
            decreases move_count - i,
        {
            let board_move = valid_moves[i];
            let count = if hashing {
                Self::dfs_count_moves_with_hashing(game, board_move, depth, &mut table)
            } else {
                proof {
                    if depth >= 2 {
                        lemma_moves_nodes_term(st, legal_moves(st), i as int, (depth - 1) as nat);
                    }
                }
                Self::dfs_count_moves_no_hashing(game, board_move, depth)
            };
            move_breakdown.push((board_move, count));
            i = i + 1;
        }
        move_breakdown
    }

    /// The count of one first move, looking up and storing the counts of
    /// the positions it reaches under their hash and depth. Counts from the
    /// table are trusted as they are.
    fn dfs_count_moves_with_hashing(
        game: &mut Game,
        initial_move: BoardMove,
        depth: usize,
        table: &mut PerftTable,
    ) -> (r: usize)
        requires
            playable(*old(game)),
            legal(old(game).state(), initial_move),
        ensures
            final(game).wf(),
            final(game).state() == old(game).state(),
            final(game).history_view() == old(game).history_view(),
            final(game).hash_keys() == old(game).hash_keys(),
            (r, perft_table_entries(*final(table))) == shared_count(
                old(game).hash_keys(),
                old(game).state(),
                initial_move,
                depth as nat,
                perft_table_entries(*old(table)),
            ),
        decreases depth,
    {
        if depth <= 1 {
            return 1;
        }
        let ghost keys = game.hash_keys();
        let ghost st = game.state();
        let ghost hist = game.history_view();
        proof {
            lemma_legal_makeable(st, initial_move);
            lemma_legal_keeps_consistent(st, initial_move);
            lemma_made_is_unmakeable(st, initial_move);
            lemma_undo_restores(st, initial_move);
        }
        game.make_move(initial_move);
        let ghost after = game.state();
        proof {
            game.lemma_key_is_hash();
        }
        let ghost t0 = perft_table_entries(*table);
        let key = game.zobrist_key() ^ (depth as u64);
        assert(key == position_hash(keys, after) ^ ((depth as nat) as u64));
        match table.get(key) {
            Some(count) => {
                game.unmake_move();
                assert(game.history_view() =~= hist);
                return count;
            },
            None => {},
        }
        proof {
            game.lemma_key_is_hash();
            crate::rules::lemma_king_square_holds(after.board, after.side, 0);
            lemma_legal_moves_legal(after);
        }
        let (current_move_count, current_moves) = game.get_moves();
        let mut total_count: usize = 0;
        if depth == 2 {
            total_count = current_move_count;
        } else {
            let mut i: usize = 0;
            while i < current_move_count
                invariant
                    i <= current_move_count,
                    current_move_count == current_moves@.len(),
                    current_moves@ == legal_moves(after),
                    forall|k: int| 0 <= k < current_moves@.len() ==> legal(after, #[trigger] current_moves@[k]),
                    game.wf(),
                    game.state() == after,
                    game.history_view() == hist.push(entry_of(st, initial_move)),
                    game.hash_keys() == keys,
                    consistent(after),
                    depth > 2,
                    (total_count, perft_table_entries(*table)) == shared_sum(
                        keys,
                        after,
                        (depth - 1) as nat,
                        t0,
                        i as nat,
                    ),
                decreases current_move_count - i,
            {
                let c = Self::dfs_count_moves_with_hashing(game, current_moves[i], depth - 1, table);
                total_count = total_count.wrapping_add(c);
                i = i + 1;
            }
        }
        table.insert(key, total_count);
        game.unmake_move();
        assert(game.history_view() =~= hist);
        total_count
    }

    /// The count of one first move: the number of move paths of length
    /// `depth - 1` after it (1 for depths 0 and 1).
    #[verifier::rlimit(60)]
    #[verifier::spinoff_prover]
    fn dfs_count_moves_no_hashing(game: &mut Game, initial_move: BoardMove, depth: usize) -> (r: usize)
        requires
            playable(*old(game)),
            legal(old(game).state(), initial_move),
            dfs_nodes(old(game).state(), initial_move, depth as nat) <= usize::MAX,
        ensures
            final(game).wf(),
            final(game).state() == old(game).state(),
            final(game).history_view() == old(game).history_view(),
            r == dfs_nodes(old(game).state(), initial_move, depth as nat),
        decreases depth,
    {
        if depth <= 1 {
            return 1;
        }
        let ghost st = game.state();
        let ghost hist = game.history_view();
        proof {
            lemma_legal_makeable(st, initial_move);
            lemma_legal_keeps_consistent(st, initial_move);
            lemma_made_is_unmakeable(st, initial_move);
            lemma_undo_restores(st, initial_move);
        }
        game.make_move(initial_move);
        let ghost after = game.state();
        proof {
            game.lemma_key_is_hash();
            crate::rules::lemma_king_square_holds(after.board, after.side, 0);
            lemma_legal_moves_legal(after);
        }
        let (current_move_count, current_moves) = game.get_moves();
        let ghost ms = legal_moves(after);
        let ghost d = (depth - 2) as nat;
        assert(dfs_nodes(st, initial_move, depth as nat) == moves_nodes(after, ms, d));
        let mut total_count: usize = 0;
        if depth == 2 {
            proof {
                lemma_moves_nodes_zero(after, ms);
            }
            total_count = current_move_count;
        } else {
            let mut i: usize = 0;
            while i < current_move_count
                invariant
                    i <= current_move_count,
                    current_move_count == current_moves@.len(),
                    current_moves@ == ms,
                    ms == legal_moves(after),
                    forall|k: int| 0 <= k < ms.len() ==> legal(after, #[trigger] ms[k]),
                    game.wf(),
                    game.state() == after,
                    game.history_view() == hist.push(entry_of(st, initial_move)),
                    consistent(after),
                    depth > 2,
                    d == depth - 2,
                    moves_nodes(after, ms, d) <= usize::MAX,
                    total_count == moves_nodes(after, ms.take(i as int), d),
                decreases current_move_count - i,
            {
                proof {
                    lemma_moves_nodes_step(after, ms, i as int, d);
                    lemma_moves_nodes_prefix(after, ms, i + 1, d);
                }
                let c = Self::dfs_count_moves_no_hashing(game, current_moves[i], depth - 1);
                total_count = total_count + c;
                i = i + 1;
            }
            assert(ms.take(current_move_count as int) =~= ms);
        }
        game.unmake_move();
        assert(game.history_view() =~= hist);
        total_count
    }
}

/// A sequence with an element appended contains what it contained and the element.
pub proof fn lemma_contains_push(s: Seq<u16>, x: u16, b: u16)
    ensures
        s.push(x).contains(b) == (s.contains(b) || x == b),
{
    if s.contains(b) {
        let w = choose|w: int| 0 <= w < s.len() && s[w] == b;
        assert(s.push(x)[w] == b);
    }
    if x == b {
        assert(s.push(x)[s.len() as int] == b);
    }
    if s.push(x).contains(b) {
        let w = choose|w: int| 0 <= w < s.push(x).len() && s.push(x)[w] == b;
        if w < s.len() {
            assert(s[w] == b);
        }
    }
}

/// The indices of the jokes not told yet, in order.
pub open spec fn untold(used: Seq<bool>) -> Seq<int>
    decreases used.len(),
{
    if used.len() == 0 {
        Seq::empty()
    } else {
        let rest = untold(used.drop_last());
        if used.last() {
            rest
        } else {
            rest.push(used.len() - 1)
        }
    }
}

proof fn lemma_untold_bounds(used: Seq<bool>)
    ensures
        forall|i: int| 0 <= i < untold(used).len() ==> 0 <= #[trigger] untold(used)[i] < used.len() && !used[untold(used)[i]],
    decreases used.len(),
{
    if used.len() > 0 {
        lemma_untold_bounds(used.drop_last());
        let rest = untold(used.drop_last());
        assert forall|i: int| 0 <= i < untold(used).len() implies 0 <= #[trigger] untold(used)[i] < used.len() && !used[untold(used)[i]] by {
            if i < rest.len() {
                assert(untold(used)[i] == rest[i]);
                assert(used.drop_last()[rest[i]] == used[rest[i]]);
            }
        }
    }
}

/// With no joke told yet, every joke is untold.
pub proof fn lemma_untold_fresh(n: nat)
    ensures
        untold(Seq::new(n, |i: int| false)).len() == n,
    decreases n,
{
    if n > 0 {
        lemma_untold_fresh((n - 1) as nat);
        assert(Seq::new(n, |i: int| false).drop_last() =~= Seq::new((n - 1) as nat, |i: int| false));
    }
}

/// Marking an untold joke told leaves one joke fewer untold.
proof fn lemma_untold_mark(used: Seq<bool>, i: int)
    requires
        0 <= i < used.len(),
        !used[i],
    ensures
        untold(used.update(i, true)).len() + 1 == untold(used).len(),
    decreases used.len(),
{
    let u = used.update(i, true);
    if i == used.len() - 1 {
        assert(u.drop_last() =~= used.drop_last());
    } else {
        lemma_untold_mark(used.drop_last(), i);
        assert(u.drop_last() =~= used.drop_last().update(i, true));
    }
}

/// One pick: among the jokes not told yet, the one at `seed` (as a
/// `usize`) modulo their number, with the marks after telling it; none, and
/// the marks unchanged, once every joke has been told.
pub open spec fn joke_pick(used: Seq<bool>, seed: u64) -> (Option<int>, Seq<bool>) {
    let u = untold(used);
    if u.len() == 0 {
        (None, used)
    } else {
        let i = u[((seed as usize) % (u.len() as usize)) as int];
        (Some(i), used.update(i, true))
    }
}

/// The jokes successive picks with `seeds` tell, in order, and the marks
/// they leave.
pub open spec fn joke_picks(used: Seq<bool>, seeds: Seq<u64>) -> (Seq<Option<int>>, Seq<bool>)
    decreases seeds.len(),
{
    if seeds.len() == 0 {
        (Seq::empty(), used)
    } else {
        let prev = joke_picks(used, seeds.drop_last());
        let step = joke_pick(prev.1, seeds.last());
        (prev.0.push(step.0), step.1)
    }
}

/// Whether one of the picks told joke `j`.
pub open spec fn tells(picks: Seq<Option<int>>, j: int) -> bool {
    exists|q: int| 0 <= q < picks.len() && picks[q] == Some(j)
}

/// With no joke untold, every joke has been told.
proof fn lemma_untold_empty(used: Seq<bool>)
    requires
        untold(used).len() == 0,
    ensures
        forall|j: int| 0 <= j < used.len() ==> #[trigger] used[j],
    decreases used.len(),
{
    if used.len() > 0 {
        lemma_untold_empty(used.drop_last());
        assert forall|j: int| 0 <= j < used.len() implies #[trigger] used[j] by {
            if j < used.len() - 1 {
                assert(used.drop_last()[j] == used[j]);
            }
        }
    }
}

/// The first `k` picks among `n` fresh jokes, `k <= n`: each tells a joke,
/// no joke twice, and the marks are those of the jokes told.
proof fn lemma_joke_picks_prefix(n: nat, seeds: Seq<u64>)
    requires
        seeds.len() <= n <= usize::MAX,
    ensures
        ({
            let (picks, marks) = joke_picks(Seq::new(n, |j: int| false), seeds);
            &&& picks.len() == seeds.len()
            &&& marks.len() == n
            &&& untold(marks).len() == n - seeds.len()
            &&& forall|q: int| 0 <= q < picks.len() ==> (#[trigger] picks[q]) is Some && 0 <= picks[q].unwrap() < n
            &&& forall|q: int, r: int| 0 <= q < r < picks.len() ==> #[trigger] picks[q] != #[trigger] picks[r]
            &&& forall|j: int| 0 <= j < n ==> (#[trigger] marks[j] <==> tells(picks, j))
        }),
    decreases seeds.len(),
{
    let fresh = Seq::new(n, |j: int| false);
    if seeds.len() == 0 {
        lemma_untold_fresh(n);
    } else {
        lemma_joke_picks_prefix(n, seeds.drop_last());
        let prev = joke_picks(fresh, seeds.drop_last());
        let marks0 = prev.1;
        let picks0 = prev.0;
        let u = untold(marks0);
        lemma_untold_bounds(marks0);
        assert(u.len() > 0);
        assert(u.len() as usize == u.len());
        let idx = ((seeds.last() as usize) % (u.len() as usize)) as int;
        assert(0 <= idx < u.len());
        let i = u[idx];
        assert(0 <= i < n && !marks0[i]);
        lemma_untold_mark(marks0, i);
        let (picks, marks) = joke_picks(fresh, seeds);
        assert(picks == picks0.push(Some(i)));
        assert(marks == marks0.update(i, true));
        assert forall|q: int| 0 <= q < picks0.len() implies #[trigger] picks0[q] != Some(i) by {
            if picks0[q] == Some(i) {
                assert(marks0[i]);
            }
        }
        assert forall|q: int, r: int| 0 <= q < r < picks.len() implies #[trigger] picks[q] != #[trigger] picks[r] by {
            if r == picks.len() - 1 {
                assert(picks[q] == picks0[q]);
            } else {
                assert(picks[q] == picks0[q] && picks[r] == picks0[r]);
            }
        }
        assert forall|j: int| 0 <= j < n implies (#[trigger] marks[j] <==> tells(picks, j)) by {
            if j == i {
                assert(picks[picks.len() - 1] == Some(i));
            } else {
                if marks[j] {
                    assert(marks0[j]);
                    assert(tells(picks0, j));
                    let q = choose|q: int| 0 <= q < picks0.len() && picks0[q] == Some(j);
                    assert(picks[q] == Some(j));
                }
                if tells(picks, j) {
                    let q = choose|q: int| 0 <= q < picks.len() && picks[q] == Some(j);
                    assert(q < picks0.len());
                    assert(picks0[q] == Some(j));
                    assert(tells(picks0, j));
                }
            }
        }
        assert forall|q: int| 0 <= q < picks.len() implies (#[trigger] picks[q]) is Some && 0 <= picks[q].unwrap() < n by {
            if q < picks0.len() {
                assert(picks[q] == picks0[q]);
            }
        }
    }
}

/// As many picks as there are jokes, starting with none told, tell every
/// joke exactly once; a further pick tells none.
pub proof fn lemma_jokes_told_once(n: nat, seeds: Seq<u64>, next: u64)
    requires
        seeds.len() == n,
        n <= usize::MAX,
    ensures
        ({
            let (picks, marks) = joke_picks(Seq::new(n, |j: int| false), seeds);
            &&& picks.len() == n
            &&& forall|q: int, r: int| 0 <= q < r < n ==> #[trigger] picks[q] != #[trigger] picks[r]
            &&& forall|j: int| 0 <= j < n ==> #[trigger] tells(picks, j)
            &&& joke_pick(marks, next).0 is None
        }),
{
    lemma_joke_picks_prefix(n, seeds);
    let (picks, marks) = joke_picks(Seq::new(n, |j: int| false), seeds);
    lemma_untold_empty(marks);
    assert forall|j: int| 0 <= j < n implies #[trigger] tells(picks, j) by {
        assert(marks[j]);
    }
}

/// Picks the joke to tell: among the jokes not told yet, the one at
/// `random_seed` (as a `usize`) modulo their number, and marks it told;
/// `None` when every joke has been told. Each joke told is one not told
/// before, and leaves one joke fewer untold, so as many calls as there are
/// jokes tell each joke once.
pub fn pick_joke(used_jokes: &mut Vec<bool>, random_seed: u64) -> (r: Option<usize>)
    ensures
        (r is None) == (untold(old(used_jokes)@).len() == 0),
        r is None ==> final(used_jokes)@ == old(used_jokes)@,
        r matches Some(i) ==> i < old(used_jokes)@.len() && !old(used_jokes)@[i as int],
        r is Some ==> untold(final(used_jokes)@).len() + 1 == untold(old(used_jokes)@).len(),
        joke_pick(old(used_jokes)@, random_seed) == (match r {
            Some(i) => Some(i as int),
            None => None,
        }, final(used_jokes)@),
        r matches Some(i) ==> {
            &&& i == untold(old(used_jokes)@)[((random_seed as usize) % (untold(old(used_jokes)@).len() as usize)) as int]
            &&& final(used_jokes)@ == old(used_jokes)@.update(i as int, true)
        },
{
    let ghost used = used_jokes@;
    let mut available: Vec<usize> = Vec::new();
    let mut i: usize = 0;
    while i < used_jokes.len()
        invariant
            used_jokes@ == used,
            i <= used.len(),
            available@.len() == untold(used.take(i as int)).len(),
            forall|q: int| 0 <= q < available@.len() ==> #[trigger] available@[q] as int == untold(used.take(i as int))[q],
        decreases used.len() - i,
    {
        assert(used.take(i + 1).drop_last() =~= used.take(i as int));
        if !used_jokes[i] {
            available.push(i);
        }
        i = i + 1;
    }
    assert(used.take(used.len() as int) =~= used);
    if available.len() == 0 {
        return None;
    }
    let k = (random_seed as usize) % available.len();
    let selected = available[k];
    proof {
        lemma_untold_bounds(used);
        lemma_untold_mark(used, selected as int);
    }
    used_jokes.set(selected, true);
    Some(selected)
}

/// A hash occurs at most as often as the history is long.
pub proof fn lemma_occurrences_bound(s: Seq<u64>, k: u64)
    ensures
        occurrences(s, k) <= s.len(),
    decreases s.len(),
{
    if s.len() > 0 {
        lemma_occurrences_bound(s.drop_last(), k);
    }
}

} // verus!
