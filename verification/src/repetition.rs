use vstd::prelude::*;
use crate::tables::{PositionCounts, position_count_entries};

verus! {

/// How often `k` occurs in `s`.
pub open spec fn occurrences(s: Seq<u64>, k: u64) -> nat
    decreases s.len(),
{
    if s.len() == 0 {
        0
    } else {
        occurrences(s.drop_last(), k) + if s.last() == k {
            1nat
        } else {
            0nat
        }
    }
}

/// The Zobrist hashes of the positions of a game, in order, with how often
/// each occurred, for detecting repetitions.
pub struct PositionHistory {
    positions: PositionCounts,
    history: Vec<u64>,
}

impl View for PositionHistory {
    type V = Seq<u64>;

    /// The hashes pushed so far, oldest first.
    closed spec fn view(&self) -> Seq<u64> {
        self.history@
    }
}

impl PositionHistory {
    /// Whether the counts are the number of occurrences of each hash in the
    /// history.
    pub closed spec fn wf(&self) -> bool {
        forall|k: u64|
            #![trigger position_count_entries(self.positions).dom().contains(k)]
            #![trigger occurrences(self.history@, k)]
            {
                &&& position_count_entries(self.positions).dom().contains(k) <==> occurrences(
                    self.history@,
                    k,
                ) > 0
                &&& position_count_entries(self.positions).dom().contains(k) ==> position_count_entries(
                    self.positions,
                )[k] == occurrences(self.history@, k)
            }
    }

    /// An empty history.
    pub fn new() -> (r: Self)
        ensures
            r.wf(),
            r@ == Seq::<u64>::empty(),
    {
        let r = PositionHistory { positions: PositionCounts::new(), history: Vec::new() };
        assert(r.history@ =~= Seq::<u64>::empty());
        r
    }

    /// Records a position.
    pub fn push(&mut self, zobrist_key: u64)
        requires
            old(self).wf(),
            occurrences(old(self)@, zobrist_key) < u32::MAX,
        ensures
            final(self).wf(),
            final(self)@ == old(self)@.push(zobrist_key),
    {
        let ghost before = self.history@;
        self.history.push(zobrist_key);
        assert(self.history@.drop_last() =~= before);
        let count = match self.positions.get(zobrist_key) {
            Some(c) => c,
            None => 0,
        };
        assert(count == occurrences(before, zobrist_key));
        self.positions.insert(zobrist_key, count + 1);
        assert forall|k: u64| k != zobrist_key implies occurrences(self.history@, k) == occurrences(
            before,
            k,
        ) by {}
    }

    /// Forgets the latest position, if any.
    pub fn pop(&mut self)
        requires
            old(self).wf(),
        ensures
            final(self).wf(),
            final(self)@ == (if old(self)@.len() > 0 {
                old(self)@.drop_last()
            } else {
                old(self)@
            }),
    {
        let ghost before = self.history@;
        match self.history.pop() {
            Some(zobrist_key) => {
                assert(self.history@ =~= before.drop_last());
                assert(occurrences(before, zobrist_key) > 0);
                match self.positions.get(zobrist_key) {
                    Some(count) => {
                        if count > 1 {
                            self.positions.insert(zobrist_key, count - 1);
                        } else {
                            self.positions.remove(zobrist_key);
                        }
                    },
                    None => {},
                }
                assert forall|k: u64| k != zobrist_key implies occurrences(self.history@, k)
                    == occurrences(before, k) by {}
            },
            None => {},
        }
    }

    /// How often a hash occurs in the history.
    pub fn occurrence_count(&self, zobrist_key: u64) -> (r: u32)
        requires
            self.wf(),
        ensures
            r == occurrences(self@, zobrist_key),
    {
        match self.positions.get(zobrist_key) {
            Some(c) => c,
            None => 0,
        }
    }

    /// Whether the position occurs three or more times in the history (the
    /// current position, once recorded, counting among them).
    pub fn is_threefold_repetition(&self, zobrist_key: u64) -> (r: bool)
        requires
            self.wf(),
        ensures
            r == (occurrences(self@, zobrist_key) >= 3),
    {
        let count = match self.positions.get(zobrist_key) {
            Some(c) => c,
            None => 0,
        };
        count >= 3
    }
}

/// A prefix of a history holds a hash no more often than the history.
pub proof fn lemma_occurrences_prefix(s: Seq<u64>, i: int, k: u64)
    requires
        0 <= i < s.len(),
    ensures
        occurrences(s.take(i + 1), k) == occurrences(s.take(i), k) + if s[i] == k {
            1nat
        } else {
            0nat
        },
        occurrences(s.take(i + 1), k) <= occurrences(s, k),
    decreases s.len() - i,
{
    assert(s.take(i + 1).drop_last() =~= s.take(i));
    if i + 1 < s.len() {
        lemma_occurrences_prefix(s, i + 1, k);
    } else {
        assert(s.take(i + 1) =~= s);
    }
}

impl Clone for PositionHistory {
    /// A copy with the same hashes, rebuilt by pushing them in order.
    fn clone(&self) -> (r: Self)
        ensures
            self.wf() ==> r.wf() && r@ == self@,
    {
        let mut r = PositionHistory::new();
        let n = self.history.len();
        let mut i: usize = 0;
        assert(self.history@.take(0) =~= Seq::<u64>::empty());
        while i < n
            invariant
                n == self.history@.len(),
                i <= n,
                r.wf(),
                r@ == self.history@.take(i as int),
            decreases n - i,
        {
            let k = self.history[i];
            let count = r.occurrence_count(k);
            if count == u32::MAX {
                proof {
                    lemma_occurrences_prefix(self.history@, i as int, k);
                    if self.wf() {
                        assert(position_count_entries(self.positions).dom().contains(k));
                    }
                }
                return r;
            }
            r.push(k);
            assert(r@ =~= self.history@.take(i + 1));
            i = i + 1;
        }
        assert(self.history@.take(n as int) =~= self.history@);
        r
    }
}

} // verus!
