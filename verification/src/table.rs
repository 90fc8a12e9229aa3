use vstd::prelude::*;
use std::sync::atomic::{AtomicU64, Ordering};
use crate::board_move::BoardMove;

verus! {

// A transposition table: four entries per bucket, buckets chosen by hash,
// with a replacement policy that prefers deep, exact and recent entries.
// The table is generic in the evaluation it stores.

/// Entries per bucket.
pub const BUCKET_SIZE: usize = 4;

/// How an entry's evaluation bounds the true value.
#[derive(Debug, Clone, Copy, PartialEq, Eq, Structural)]
pub enum NodeType {
    Exact,
    LowerBound,
    UpperBound,
}

/// A stored search result.
#[derive(Debug, Clone, Copy)]
pub struct TTEntry<E> {
    /// The position's hash; 0 marks an empty slot.
    pub key: u64,
    pub depth: u8,
    pub evaluation: E,
    pub best_move: BoardMove,
    pub node_type: NodeType,
    /// The search generation that stored the entry.
    pub age: u8,
}

/// Bonus of a node type when choosing an entry to keep.
pub open spec fn node_type_bonus(t: NodeType) -> int {
    match t {
        NodeType::Exact => 25,
        NodeType::LowerBound => 5,
        NodeType::UpperBound => 0,
    }
}

/// Generations elapsed since `age`, counted modulo 256.
pub open spec fn age_diff(generation: u8, age: u8) -> int {
    (generation - age) % 256
}

/// How valuable an entry is to keep: empty slots score lowest; otherwise
/// eight per depth, a bonus by node type, less three per generation of age
/// (at most fifteen generations count).
pub open spec fn spec_replacement_score<E>(e: TTEntry<E>, generation: u8) -> int {
    if e.key == 0 {
        -1000
    } else {
        let d = age_diff(generation, e.age);
        e.depth * 8 + node_type_bonus(e.node_type) - (if d < 15 { d } else { 15 }) * 3
    }
}

impl<E: Copy> TTEntry<E> {
    /// An empty slot holding the given evaluation.
    pub fn empty(evaluation: E) -> (r: Self)
        ensures
            r.key == 0,
            r.depth == 0,
            r.evaluation == evaluation,
            r.best_move == 0,
            r.node_type == NodeType::Exact,
            r.age == 0,
    {
        TTEntry { key: 0, depth: 0, evaluation, best_move: 0, node_type: NodeType::Exact, age: 0 }
    }

    /// How valuable the entry is to keep.
    pub fn replacement_score(&self, current_generation: u8) -> (r: i32)
        ensures
            r == spec_replacement_score(*self, current_generation),
    {
        if self.key == 0 {
            return -1000;
        }
        let depth_score = self.depth as i32 * 8;
        let age_diff = current_generation.wrapping_sub(self.age);
        let capped: i32 = if (age_diff as i32) < 15 {
            age_diff as i32
        } else {
            15
        };
        let age_penalty = capped * 3;
        let node_type_bonus: i32 = match self.node_type {
            NodeType::Exact => 25,
            NodeType::LowerBound => 5,
            NodeType::UpperBound => 0,
        };
        depth_score + node_type_bonus - age_penalty
    }
}

/// The first slot of a bucket that holds `key` or is empty, from slot `i` on.
pub open spec fn first_slot<E>(bucket: Seq<TTEntry<E>>, key: u64, i: int) -> Option<int>
    decreases 4 - i,
{
    if i < 0 || i >= 4 {
        None
    } else if bucket[i].key == key || bucket[i].key == 0 {
        Some(i)
    } else {
        first_slot(bucket, key, i + 1)
    }
}

/// The first slot with the lowest replacement score among the first `n`.
pub open spec fn worst_slot<E>(bucket: Seq<TTEntry<E>>, generation: u8, n: int) -> int
    decreases n,
{
    if n <= 1 {
        0
    } else {
        let w = worst_slot(bucket, generation, n - 1);
        if spec_replacement_score(bucket[n - 1], generation) < spec_replacement_score(bucket[w], generation) {
            n - 1
        } else {
            w
        }
    }
}

/// The slot a store writes, if any: the slot holding the key when the new
/// result is from a later generation or at least as deep, else nothing; an
/// empty slot; or, in a full bucket, the slot least worth keeping.
pub open spec fn store_slot<E>(bucket: Seq<TTEntry<E>>, key: u64, depth: u8, generation: u8) -> Option<int> {
    match first_slot(bucket, key, 0) {
        Some(i) => if bucket[i].key == key {
            if age_diff(generation, bucket[i].age) > 0 || depth >= bucket[i].depth {
                Some(i)
            } else {
                None
            }
        } else {
            Some(i)
        },
        None => Some(worst_slot(bucket, generation, 4)),
    }
}

/// Whether an entry is more than two generations old.
pub open spec fn stale<E>(e: TTEntry<E>, generation: u8) -> bool {
    e.key != 0 && age_diff(generation, e.age) > 2
}

/// How many of the first `s` slots of a bucket are stale.
pub open spec fn stale_in_bucket<E>(bucket: Seq<TTEntry<E>>, generation: u8, s: int) -> nat
    decreases s,
{
    if s <= 0 {
        0
    } else {
        stale_in_bucket(bucket, generation, s - 1) + if stale(bucket[s - 1], generation) {
            1nat
        } else {
            0nat
        }
    }
}

/// How many slots of the first `n` buckets are stale.
pub open spec fn stale_count<E>(buckets: Seq<Seq<TTEntry<E>>>, generation: u8, n: int) -> nat
    decreases n,
{
    if n <= 0 {
        0
    } else {
        stale_count(buckets, generation, n - 1) + stale_in_bucket(buckets[n - 1], generation, 4)
    }
}

/// Stale slots only add up.
proof fn lemma_stale_count_grows<E>(buckets: Seq<Seq<TTEntry<E>>>, generation: u8, i: int, n: int)
    requires
        0 <= i <= n,
    ensures
        stale_count(buckets, generation, i) <= stale_count(buckets, generation, n),
    decreases n,
{
    if i < n {
        lemma_stale_count_grows(buckets, generation, i, n - 1);
    }
}

/// A fixed-size table of search results keyed by position hash.
pub struct TranspositionTable<E> {
    buckets: Vec<[TTEntry<E>; 4]>,
    bucket_count: usize,
    generation: u8,
    hits: AtomicU64,
    misses: AtomicU64,
    filled_entries: AtomicU64,
    overwrites: AtomicU64,
    empty_evaluation: E,
}

impl<E: Copy> TranspositionTable<E> {
    /// The entries, bucket by bucket.
    pub closed spec fn spec_buckets(&self) -> Seq<Seq<TTEntry<E>>> {
        self.buckets@.map_values(|b: [TTEntry<E>; 4]| b@)
    }

    /// The current search generation.
    pub closed spec fn spec_generation(&self) -> u8 {
        self.generation
    }

    /// The evaluation that empty slots hold.
    pub closed spec fn spec_empty_evaluation(&self) -> E {
        self.empty_evaluation
    }

    /// Whether the bucket count matches the buckets.
    pub closed spec fn wf(&self) -> bool {
        self.buckets@.len() == self.bucket_count
    }

    /// The bucket a key belongs to.
    pub open spec fn bucket_of(&self, key: u64) -> int {
        (key as usize) as int % self.spec_buckets().len() as int
    }

    /// A table of about `size_mb` megabytes (as many buckets as fit), all
    /// slots empty, at generation 0.
    pub fn new(size_mb: usize, empty_evaluation: E) -> (r: Self)
        requires
            size_mb * 1048576 <= usize::MAX,
        ensures
            r.wf(),
            r.spec_generation() == 0,
            r.spec_empty_evaluation() == empty_evaluation,
            r.spec_buckets().len() == (if vstd::layout::size_of::<TTEntry<E>>() * 4 == 0 {
                0
            } else {
                (size_mb * 1048576) as int / (vstd::layout::size_of::<TTEntry<E>>() * 4) as int
            }),
            forall|b: int, s: int|
                0 <= b < r.spec_buckets().len() && 0 <= s < 4 ==> #[trigger] r.spec_buckets()[b][s]
                    == TTEntry::<E>::empty_spec(empty_evaluation),
    {
        let entry_size = std::mem::size_of::<TTEntry<E>>().checked_mul(BUCKET_SIZE);
        let total_buckets: usize = match entry_size {
            Some(sz) => if sz == 0 {
                0
            } else {
                (size_mb * 1048576) / sz
            },
            None => 0,
        };
        proof {
            if vstd::layout::size_of::<TTEntry<E>>() * 4 > usize::MAX {
                assert((size_mb * 1048576) as int / (vstd::layout::size_of::<TTEntry<E>>() * 4) as int == 0) by (nonlinear_arith)
                    requires
                        size_mb * 1048576 <= usize::MAX,
                        vstd::layout::size_of::<TTEntry<E>>() * 4 > usize::MAX,
                ;
            }
        }
        let empty = TTEntry::empty(empty_evaluation);
        let mut buckets: Vec<[TTEntry<E>; 4]> = Vec::new();
        let mut i: usize = 0;
        while i < total_buckets
            invariant
                i <= total_buckets,
                buckets@.len() == i,
                empty == TTEntry::<E>::empty_spec(empty_evaluation),
                forall|b: int| 0 <= b < i ==> #[trigger] buckets@[b]@ == seq![empty, empty, empty, empty],
            decreases total_buckets - i,
        {
            let bucket = [empty, empty, empty, empty];
            assert(bucket@ =~= seq![empty, empty, empty, empty]);
            buckets.push(bucket);
            i = i + 1;
        }
        let r = TranspositionTable {
            buckets,
            bucket_count: total_buckets,
            generation: 0,
            hits: AtomicU64::new(0),
            misses: AtomicU64::new(0),
            filled_entries: AtomicU64::new(0),
            overwrites: AtomicU64::new(0),
            empty_evaluation,
        };
        assert forall|b: int, s: int| 0 <= b < r.spec_buckets().len() && 0 <= s < 4 implies #[trigger] r.spec_buckets()[b][s]
            == TTEntry::<E>::empty_spec(empty_evaluation) by {
            assert(r.spec_buckets()[b] == r.buckets@[b]@);
        }
        r
    }

    /// The number of buckets.
    pub fn bucket_count(&self) -> (r: usize)
        requires
            self.wf(),
        ensures
            r == self.spec_buckets().len(),
    {
        self.bucket_count
    }

    /// Starts a new search generation (wrapping at 256).
    pub fn new_search(&mut self)
        ensures
            final(self).spec_generation() == old(self).spec_generation().wrapping_add(1),
            final(self).spec_buckets() == old(self).spec_buckets(),
            final(self).spec_empty_evaluation() == old(self).spec_empty_evaluation(),
            final(self).wf() == old(self).wf(),
    {
        self.generation = self.generation.wrapping_add(1);
    }

    fn get_bucket_index(&self, key: u64) -> (r: usize)
        requires
            self.wf(),
            self.spec_buckets().len() > 0,
        ensures
            r == self.bucket_of(key),
            r < self.spec_buckets().len(),
    {
        (key as usize) % self.bucket_count
    }

    /// The entry stored for a key, if any slot of its bucket holds it (the
    /// first such slot).
    pub fn probe(&self, key: u64) -> (r: Option<TTEntry<E>>)
        requires
            self.wf(),
            self.spec_buckets().len() > 0,
        ensures
            r == (match first_key(self.spec_buckets()[self.bucket_of(key)], key, 0) {
                Some(i) => Some(self.spec_buckets()[self.bucket_of(key)][i]),
                None => None::<TTEntry<E>>,
            }),
    {
        let bucket_idx = self.get_bucket_index(key);
        let bucket = &self.buckets[bucket_idx];
        assert(bucket@ == self.spec_buckets()[bucket_idx as int]);
        let mut i: usize = 0;
        while i < BUCKET_SIZE
            invariant
                i <= 4,
                bucket@.len() == 4,
                bucket_idx == self.bucket_of(key),
                bucket@ == self.spec_buckets()[bucket_idx as int],
                first_key(bucket@, key, 0) == first_key(bucket@, key, i as int),
            decreases 4 - i,
        {
            if bucket[i].key == key {
                bump(&self.hits);
                return Some(bucket[i]);
            }
            i = i + 1;
        }
        bump(&self.misses);
        None
    }

    /// Stores a search result in the slot `store_slot` picks.
    pub fn store(&mut self, key: u64, depth: u8, evaluation: E, best_move: BoardMove, node_type: NodeType)
        requires
            old(self).wf(),
            old(self).spec_buckets().len() > 0,
        ensures
            final(self).wf(),
            final(self).spec_generation() == old(self).spec_generation(),
            final(self).spec_empty_evaluation() == old(self).spec_empty_evaluation(),
            ({
                let b = old(self).bucket_of(key);
                let bucket = old(self).spec_buckets()[b];
                let entry = TTEntry { key, depth, evaluation, best_move, node_type, age: old(self).spec_generation() };
                final(self).spec_buckets() == match store_slot(bucket, key, depth, old(self).spec_generation()) {
                    Some(i) => old(self).spec_buckets().update(b, bucket.update(i, entry)),
                    None => old(self).spec_buckets(),
                }
            }),
    {
        let bucket_idx = self.get_bucket_index(key);
        let ghost b = bucket_idx as int;
        let ghost old_buckets = self.spec_buckets();
        let mut bucket = self.buckets[bucket_idx];
        assert(bucket@ == old_buckets[b]);
        let new_entry = TTEntry { key, depth, evaluation, best_move, node_type, age: self.generation };
        let mut i: usize = 0;
        while i < BUCKET_SIZE
            invariant
                i <= 4,
                bucket@.len() == 4,
                self.wf(),
                old_buckets.len() > 0,
                bucket_idx as int == b,
                b == old(self).bucket_of(key),
                0 <= b < old_buckets.len(),
                old_buckets == old(self).spec_buckets(),
                self.spec_buckets() == old_buckets,
                self.buckets@.len() == old_buckets.len(),
                self.generation == old(self).spec_generation(),
                self.empty_evaluation == old(self).spec_empty_evaluation(),
                bucket@ == old_buckets[b],
                new_entry == (TTEntry { key, depth, evaluation, best_move, node_type, age: self.generation }),
                first_slot(bucket@, key, 0) == first_slot(bucket@, key, i as int),
            decreases 4 - i,
        {
            if bucket[i].key == key {
                let is_newer = self.generation.wrapping_sub(bucket[i].age) > 0;
                if is_newer || depth >= bucket[i].depth {
                    bucket[i] = new_entry;
                    self.buckets.set(bucket_idx, bucket);
                }
                proof {
                    self.lemma_buckets_update(old_buckets, b);
                }
                return;
            }
            if bucket[i].key == 0 {
                bucket[i] = new_entry;
                self.buckets.set(bucket_idx, bucket);
                bump(&self.filled_entries);
                proof {
                    self.lemma_buckets_update(old_buckets, b);
                }
                return;
            }
            i = i + 1;
        }
        let mut worst_idx: usize = 0;
        let mut worst_score: i32 = i32::MAX;
        let mut k: usize = 0;
        while k < BUCKET_SIZE
            invariant
                k <= 4,
                bucket@.len() == 4,
                self.wf(),
                bucket_idx as int == b,
                b == old(self).bucket_of(key),
                0 <= b < old_buckets.len(),
                old_buckets == old(self).spec_buckets(),
                self.spec_buckets() == old_buckets,
                self.buckets@.len() == old_buckets.len(),
                self.generation == old(self).spec_generation(),
                self.empty_evaluation == old(self).spec_empty_evaluation(),
                bucket@ == old_buckets[b],
                first_slot(bucket@, key, 0) is None,
                k == 0 ==> worst_score == i32::MAX && worst_idx == 0,
                k > 0 ==> worst_idx == worst_slot(bucket@, self.generation, k as int),
                k > 0 ==> worst_score == spec_replacement_score(bucket@[worst_idx as int], self.generation),
                worst_idx < 4,
            decreases 4 - k,
        {
            let score = bucket[k].replacement_score(self.generation);
            if score < worst_score {
                worst_score = score;
                worst_idx = k;
            }
            k = k + 1;
        }
        bucket[worst_idx] = new_entry;
        self.buckets.set(bucket_idx, bucket);
        bump(&self.overwrites);
        proof {
            self.lemma_buckets_update(old_buckets, b);
        }
    }

    proof fn lemma_buckets_update(&self, old_buckets: Seq<Seq<TTEntry<E>>>, b: int)
        requires
            0 <= b < old_buckets.len(),
            self.buckets@.len() == old_buckets.len(),
            forall|q: int| 0 <= q < old_buckets.len() && q != b ==> #[trigger] self.buckets@[q]@ == old_buckets[q],
        ensures
            self.spec_buckets() == old_buckets.update(b, self.buckets@[b]@),
    {
        assert(self.spec_buckets() =~= old_buckets.update(b, self.buckets@[b]@));
    }

    /// Empties the slots that are more than two generations old; answers
    /// how many it emptied (counted in 64 bits, as the count is kept).
    pub fn prune_old_entries(&mut self) -> (r: usize)
        requires
            old(self).wf(),
        ensures
            stale_count(old(self).spec_buckets(), old(self).spec_generation(), old(self).spec_buckets().len() as int)
                <= usize::MAX && stale_count(
                old(self).spec_buckets(),
                old(self).spec_generation(),
                old(self).spec_buckets().len() as int,
            ) <= u64::MAX ==> r == stale_count(
                old(self).spec_buckets(),
                old(self).spec_generation(),
                old(self).spec_buckets().len() as int,
            ),
            final(self).wf(),
            final(self).spec_generation() == old(self).spec_generation(),
            final(self).spec_empty_evaluation() == old(self).spec_empty_evaluation(),
            final(self).spec_buckets().len() == old(self).spec_buckets().len(),
            forall|b: int, s: int|
                0 <= b < old(self).spec_buckets().len() && 0 <= s < 4 ==> #[trigger] final(self).spec_buckets()[b][s]
                    == if old(self).spec_buckets()[b][s].key != 0 && age_diff(
                    old(self).spec_generation(),
                    old(self).spec_buckets()[b][s].age,
                ) > 2 {
                    TTEntry::<E>::empty_spec(old(self).spec_empty_evaluation())
                } else {
                    old(self).spec_buckets()[b][s]
                },
    {
        let ghost old_buckets = self.spec_buckets();
        let mut pruned: u64 = 0;
        let n = self.buckets.len();
        let empty = TTEntry::empty(self.empty_evaluation);
        let mut b: usize = 0;
        while b < n
            invariant
                n == self.buckets@.len(),
                n == old_buckets.len(),
                self.bucket_count == n,
                b <= n,
                empty == TTEntry::<E>::empty_spec(self.empty_evaluation),
                self.empty_evaluation == old(self).spec_empty_evaluation(),
                self.generation == old(self).spec_generation(),
                old_buckets == old(self).spec_buckets(),
                forall|q: int| b <= q < n ==> #[trigger] self.buckets@[q]@ == old_buckets[q],
                stale_count(old_buckets, self.generation, b as int) <= u64::MAX ==> pruned == stale_count(
                    old_buckets,
                    self.generation,
                    b as int,
                ),
                forall|q: int, s: int|
                    0 <= q < b && 0 <= s < 4 ==> #[trigger] self.buckets@[q]@[s] == if old_buckets[q][s].key != 0
                        && age_diff(self.generation, old_buckets[q][s].age) > 2 {
                        empty
                    } else {
                        old_buckets[q][s]
                    },
            decreases n - b,
        {
            let mut bucket = self.buckets[b];
            let ghost before = bucket@;
            let ghost counted = stale_count(old_buckets, self.generation, b as int);
            assert(before == old_buckets[b as int]);
            let mut s: usize = 0;
            while s < BUCKET_SIZE
                invariant
                    s <= 4,
                    bucket@.len() == 4,
                    counted + stale_in_bucket(before, self.generation, s as int) <= u64::MAX ==> pruned == counted
                        + stale_in_bucket(before, self.generation, s as int),
                    forall|t: int| s <= t < 4 ==> #[trigger] bucket@[t] == before[t],
                    forall|t: int|
                        0 <= t < s ==> #[trigger] bucket@[t] == if before[t].key != 0 && age_diff(
                            self.generation,
                            before[t].age,
                        ) > 2 {
                            empty
                        } else {
                            before[t]
                        },
                decreases 4 - s,
            {
                if bucket[s].key != 0 {
                    let diff = self.generation.wrapping_sub(bucket[s].age);
                    if diff > 2 {
                        bucket[s] = empty;
                        pruned = pruned.wrapping_add(1);
                    }
                }
                s = s + 1;
            }
            self.buckets.set(b, bucket);
            proof {
                lemma_stale_count_grows(old_buckets, self.generation, (b + 1) as int, old_buckets.len() as int);
            }
            b = b + 1;
        }
        if pruned > 0 {
            lower(&self.filled_entries, pruned);
        }
        proof {
            assert forall|q: int, s: int| 0 <= q < n && 0 <= s < 4 implies #[trigger] self.spec_buckets()[q][s]
                == if old_buckets[q][s].key != 0 && age_diff(self.generation, old_buckets[q][s].age) > 2 {
                empty
            } else {
                old_buckets[q][s]
            } by {
                assert(self.spec_buckets()[q] == self.buckets@[q]@);
            }
        }
        pruned as usize
    }

    /// Empties every slot and resets the generation and the counters.
    pub fn clear(&mut self)
        requires
            old(self).wf(),
        ensures
            final(self).wf(),
            final(self).spec_generation() == 0,
            final(self).spec_empty_evaluation() == old(self).spec_empty_evaluation(),
            final(self).spec_buckets().len() == old(self).spec_buckets().len(),
            forall|b: int, s: int|
                0 <= b < final(self).spec_buckets().len() && 0 <= s < 4 ==> #[trigger] final(self).spec_buckets()[b][s]
                    == TTEntry::<E>::empty_spec(old(self).spec_empty_evaluation()),
    {
        let empty = TTEntry::empty(self.empty_evaluation);
        let n = self.buckets.len();
        let mut b: usize = 0;
        while b < n
            invariant
                n == self.buckets@.len(),
                self.bucket_count == n,
                b <= n,
                empty == TTEntry::<E>::empty_spec(self.empty_evaluation),
                self.empty_evaluation == old(self).spec_empty_evaluation(),
                forall|q: int| 0 <= q < b ==> #[trigger] self.buckets@[q]@ == seq![empty, empty, empty, empty],
            decreases n - b,
        {
            let bucket = [empty, empty, empty, empty];
            assert(bucket@ =~= seq![empty, empty, empty, empty]);
            self.buckets.set(b, bucket);
            b = b + 1;
        }
        self.generation = 0;
        reset(&self.hits);
        reset(&self.misses);
        reset(&self.filled_entries);
        reset(&self.overwrites);
        proof {
            assert forall|q: int, s: int| 0 <= q < n && 0 <= s < 4 implies #[trigger] self.spec_buckets()[q][s]
                == empty by {
                assert(self.spec_buckets()[q] == self.buckets@[q]@);
            }
        }
    }

    /// Filled slots per thousand, from the fill counter (products wrap as
    /// in release builds). The counter is read as it stands, so the result
    /// is `permille_of` some reading of it.
    pub fn get_fullness_permille(&self) -> (r: u64)
        requires
            self.wf(),
        ensures
            exists|filled: u64| r == #[trigger] permille_of(filled, self.spec_buckets().len()),
    {
        let filled = read(&self.filled_entries);
        let total_slots = (self.bucket_count as u64).wrapping_mul(4);
        let r = if total_slots == 0 {
            0
        } else {
            filled.wrapping_mul(1000) / total_slots
        };
        assert(r == permille_of(filled, self.spec_buckets().len()));
        r
    }

    /// Probes that found their key, in percent, from the hit and miss
    /// counters (sums and products wrap as in release builds). The counters
    /// are read as they stand, so the result is `percent_of` some readings.
    pub fn get_hit_rate_percent(&self) -> (r: u64)
        ensures
            exists|hits: u64, misses: u64| r == #[trigger] percent_of(hits, misses),
    {
        let hits = read(&self.hits);
        let misses = read(&self.misses);
        let total = hits.wrapping_add(misses);
        let r = if total == 0 {
            0
        } else {
            hits.wrapping_mul(100) / total
        };
        assert(r == percent_of(hits, misses));
        r
    }
}

/// Filled slots per thousand for a fill count and a number of buckets of
/// four slots, as the table computes it (products wrap at 2^64).
pub open spec fn permille_of(filled: u64, buckets: nat) -> u64 {
    let total = vstd::wrapping::u64_specs::wrapping_mul(buckets as u64, 4);
    if total == 0 {
        0
    } else {
        (vstd::wrapping::u64_specs::wrapping_mul(filled, 1000) / total) as u64
    }
}

/// The hit rate in percent for hit and miss counts, as the table computes
/// it (sums and products wrap at 2^64).
pub open spec fn percent_of(hits: u64, misses: u64) -> u64 {
    let total = vstd::wrapping::u64_specs::wrapping_add(hits, misses);
    if total == 0 {
        0
    } else {
        (vstd::wrapping::u64_specs::wrapping_mul(hits, 100) / total) as u64
    }
}

/// Adds one to a statistics counter.
fn bump(counter: &AtomicU64) {
    counter.fetch_add(1, Ordering::Relaxed);
}

/// Subtracts from a statistics counter.
fn lower(counter: &AtomicU64, n: u64) {
    counter.fetch_sub(n, Ordering::Relaxed);
}

/// Sets a statistics counter to zero.
fn reset(counter: &AtomicU64) {
    counter.store(0, Ordering::Relaxed);
}

/// Reads a statistics counter.
fn read(counter: &AtomicU64) -> u64 {
    counter.load(Ordering::Relaxed)
}

impl<E> TTEntry<E> {
    /// An empty slot holding the given evaluation.
    pub open spec fn empty_spec(evaluation: E) -> TTEntry<E> {
        TTEntry { key: 0, depth: 0, evaluation, best_move: 0, node_type: NodeType::Exact, age: 0 }
    }
}

/// The first slot of a bucket holding `key`, from slot `i` on.
pub open spec fn first_key<E>(bucket: Seq<TTEntry<E>>, key: u64, i: int) -> Option<int>
    decreases 4 - i,
{
    if i < 0 || i >= 4 {
        None
    } else if bucket[i].key == key {
        Some(i)
    } else {
        first_key(bucket, key, i + 1)
    }
}

proof fn lemma_first_slot_facts<E>(bucket: Seq<TTEntry<E>>, key: u64, i: int)
    requires
        0 <= i <= 4,
        bucket.len() == 4,
    ensures
        first_slot(bucket, key, i) matches Some(j) ==> i <= j < 4 && (bucket[j].key == key || bucket[j].key
            == 0) && forall|t: int| i <= t < j ==> bucket[t].key != key,
        first_slot(bucket, key, i) is None ==> forall|t: int| i <= t < 4 ==> bucket[t].key != key,
    decreases 4 - i,
{
    if i < 4 {
        lemma_first_slot_facts(bucket, key, i + 1);
    }
}

proof fn lemma_first_key_at<E>(bucket: Seq<TTEntry<E>>, key: u64, i: int, j: int)
    requires
        0 <= i <= j < 4,
        bucket.len() == 4,
        bucket[j].key == key,
        forall|t: int| i <= t < j ==> bucket[t].key != key,
    ensures
        first_key(bucket, key, i) == Some(j),
    decreases j - i,
{
    if i < j {
        lemma_first_key_at(bucket, key, i + 1, j);
    }
}

proof fn lemma_worst_slot_range<E>(bucket: Seq<TTEntry<E>>, generation: u8, n: int)
    requires
        1 <= n <= 4,
    ensures
        0 <= worst_slot(bucket, generation, n) < n,
    decreases n,
{
    if n > 1 {
        lemma_worst_slot_range(bucket, generation, n - 1);
    }
}

/// A result that a store writes is what a probe of its key then finds.
pub proof fn lemma_probe_after_store<E>(bucket: Seq<TTEntry<E>>, key: u64, depth: u8, generation: u8, entry: TTEntry<E>)
    requires
        bucket.len() == 4,
        entry.key == key,
        store_slot(bucket, key, depth, generation) is Some,
    ensures
        ({
            let i = store_slot(bucket, key, depth, generation).unwrap();
            let after = bucket.update(i, entry);
            first_key(after, key, 0) == Some(i) && after[i] == entry
        }),
{
    lemma_first_slot_facts(bucket, key, 0);
    let i = store_slot(bucket, key, depth, generation).unwrap();
    if first_slot(bucket, key, 0) is None {
        lemma_worst_slot_range(bucket, generation, 4);
    }
    let after = bucket.update(i, entry);
    lemma_first_key_at(after, key, 0, i);
}

} // verus!
