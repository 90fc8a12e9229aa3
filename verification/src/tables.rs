use vstd::prelude::*;
use fxhash::FxHashMap;
use crate::book::{BookEntry, BookMove};

verus! {

// Hash maps keyed by Zobrist hashes, on the `FxHashMap` of the fxhash crate.

/// Node counts of positions already counted, keyed by Zobrist hash and depth.
#[verifier::external_body]
pub struct PerftTable {
    map: FxHashMap<u64, usize>,
}

/// What a perft table holds.
pub uninterp spec fn perft_table_entries(t: PerftTable) -> Map<u64, usize>;

impl PerftTable {
    /// An empty table: `FxHashMap::default()` holds no entry.
    #[verifier::external_body]
    pub(crate) fn new() -> (r: PerftTable)
        ensures
            perft_table_entries(r).dom() == Set::<u64>::empty(),
    {
        PerftTable { map: FxHashMap::default() }
    }

    /// The count stored under a key: `HashMap::get` hands back the value of
    /// the key if it is present.
    #[verifier::external_body]
    pub(crate) fn get(&self, key: u64) -> (r: Option<usize>)
        ensures
            r == (if perft_table_entries(*self).dom().contains(key) {
                Some(perft_table_entries(*self)[key])
            } else {
                None
            }),
    {
        self.map.get(&key).copied()
    }

    /// Stores a count: `HashMap::insert` maps the key to the value, replacing
    /// any value it had.
    #[verifier::external_body]
    pub(crate) fn insert(&mut self, key: u64, value: usize)
        ensures
            perft_table_entries(*final(self)) == perft_table_entries(*old(self)).insert(key, value),
    {
        self.map.insert(key, value);
    }
}

/// How often each Zobrist hash occurs in a game's history.
#[verifier::external_body]
pub struct PositionCounts {
    map: FxHashMap<u64, u32>,
}

/// What a position-count map holds.
pub uninterp spec fn position_count_entries(t: PositionCounts) -> Map<u64, u32>;

impl PositionCounts {
    /// An empty map: `FxHashMap::default()` holds no entry.
    #[verifier::external_body]
    pub(crate) fn new() -> (r: PositionCounts)
        ensures
            position_count_entries(r).dom() == Set::<u64>::empty(),
    {
        PositionCounts { map: FxHashMap::default() }
    }

    /// The count of a key: `HashMap::get` hands back the value of the key if
    /// it is present.
    #[verifier::external_body]
    pub(crate) fn get(&self, key: u64) -> (r: Option<u32>)
        ensures
            r == (if position_count_entries(*self).dom().contains(key) {
                Some(position_count_entries(*self)[key])
            } else {
                None
            }),
    {
        self.map.get(&key).copied()
    }

    /// Sets a count: `HashMap::insert` maps the key to the value, replacing
    /// any value it had.
    #[verifier::external_body]
    pub(crate) fn insert(&mut self, key: u64, value: u32)
        ensures
            position_count_entries(*final(self)) == position_count_entries(*old(self)).insert(key, value),
    {
        self.map.insert(key, value);
    }

    /// Drops a key: `HashMap::remove` takes the key and its value out of the map.
    #[verifier::external_body]
    pub(crate) fn remove(&mut self, key: u64)
        ensures
            position_count_entries(*final(self)) == position_count_entries(*old(self)).remove(key),
    {
        self.map.remove(&key);
    }
}

/// Opening-book entries keyed by Zobrist hash.
#[verifier::external_body]
pub struct BookPositions {
    map: FxHashMap<u64, BookEntry>,
}

/// What a book map holds: for each hash, the entry's moves and its rating
/// total.
pub uninterp spec fn book_position_entries(t: BookPositions) -> Map<u64, (Seq<BookMove>, u32)>;

impl BookPositions {
    /// An empty map: `FxHashMap::default()` holds no entry.
    #[verifier::external_body]
    pub(crate) fn new() -> (r: BookPositions)
        ensures
            book_position_entries(r).dom() == Set::<u64>::empty(),
    {
        BookPositions { map: FxHashMap::default() }
    }

    /// The entry of a key: `HashMap::get` hands back a reference to the
    /// value of the key if it is present.
    #[verifier::external_body]
    pub(crate) fn get(&self, key: u64) -> (r: Option<&BookEntry>)
        ensures
            r is Some <==> book_position_entries(*self).dom().contains(key),
            r matches Some(e) ==> book_position_entries(*self)[key] == (e.moves@, e.total_rating),
    {
        self.map.get(&key)
    }

    /// Takes an entry out: `HashMap::remove` drops the key and hands back
    /// its value if it was present.
    #[verifier::external_body]
    pub(crate) fn remove(&mut self, key: u64) -> (r: Option<BookEntry>)
        ensures
            book_position_entries(*final(self)) == book_position_entries(*old(self)).remove(key),
            r is Some <==> book_position_entries(*old(self)).dom().contains(key),
            r matches Some(e) ==> book_position_entries(*old(self))[key] == (e.moves@, e.total_rating),
    {
        self.map.remove(&key)
    }

    /// Stores an entry: `HashMap::insert` maps the key to the value,
    /// replacing any value it had.
    #[verifier::external_body]
    pub(crate) fn insert(&mut self, key: u64, entry: BookEntry)
        ensures
            book_position_entries(*final(self)) == book_position_entries(*old(self)).insert(
                key,
                (entry.moves@, entry.total_rating),
            ),
    {
        self.map.insert(key, entry);
    }

    /// The number of keys: `HashMap::len`.
    #[verifier::external_body]
    pub(crate) fn len(&self) -> (r: usize)
        ensures
            r == book_position_entries(*self).dom().len(),
    {
        self.map.len()
    }

    /// The keys in the order `HashMap::keys` walks them: each key once. The
    /// order depends on the hasher and the map's history and is left open.
    #[verifier::external_body]
    pub(crate) fn keys(&self) -> (r: Vec<u64>)
        ensures
            r@.no_duplicates(),
            r@.len() == book_position_entries(*self).dom().len(),
            forall|k: u64| #[trigger] r@.contains(k) <==> book_position_entries(*self).dom().contains(k),
    {
        self.map.keys().copied().collect()
    }
}

} // verus!
