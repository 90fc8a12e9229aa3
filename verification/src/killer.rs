use vstd::prelude::*;
use crate::board_move::BoardMove;

verus! {

/// Two killer moves per search ply: quiet moves that caused a cutoff, most
/// recent first.
#[derive(Clone)]
pub struct KillerMoves {
    killers: Vec<[BoardMove; 2]>,
}

/// At every ply the two killers differ, or both slots are empty.
pub open spec fn killers_distinct(k: Seq<(BoardMove, BoardMove)>) -> bool {
    forall|i: int| 0 <= i < k.len() ==> (#[trigger] k[i]).0 != k[i].1 || (k[i].0 == 0 && k[i].1 == 0)
}

impl KillerMoves {
    /// The killer slots, one pair per ply.
    pub closed spec fn view_killers(&self) -> Seq<(BoardMove, BoardMove)> {
        Seq::new(self.killers@.len(), |i: int| (self.killers@[i][0], self.killers@[i][1]))
    }

    /// Empty killer slots for `max_ply` plies.
    pub fn new(max_ply: usize) -> (r: Self)
        ensures
            r.view_killers() == Seq::new(max_ply as nat, |i: int| (0u16, 0u16)),
            killers_distinct(r.view_killers()),
    {
        let mut killers: Vec<[BoardMove; 2]> = Vec::new();
        let mut i: usize = 0;
        while i < max_ply
            invariant
                i <= max_ply,
                killers@.len() == i,
                forall|j: int| 0 <= j < i ==> (#[trigger] killers@[j])[0] == 0 && killers@[j][1] == 0,
            decreases max_ply - i,
        {
            killers.push([0u16, 0u16]);
            i = i + 1;
        }
        let r = Self { killers };
        assert(r.view_killers() =~= Seq::new(max_ply as nat, |i: int| (0u16, 0u16)));
        r
    }

    /// Records a killer at `ply`: a move already first stays; otherwise the
    /// first moves to second place and the new move becomes first. Plies
    /// beyond the table are ignored. The two killers of a ply stay distinct
    /// (or both empty).
    pub fn add_killer(&mut self, ply: usize, board_move: BoardMove)
        ensures
            killers_distinct(old(self).view_killers()) ==> killers_distinct(final(self).view_killers()),
            final(self).view_killers() == (if ply < old(self).view_killers().len()
                && old(self).view_killers()[ply as int].0 != board_move {
                old(self).view_killers().update(
                    ply as int,
                    (board_move, old(self).view_killers()[ply as int].0),
                )
            } else {
                old(self).view_killers()
            }),
    {
        if ply >= self.killers.len() {
            return;
        }
        if self.killers[ply][0] == board_move {
            return;
        }
        let first = self.killers[ply][0];
        self.killers.set(ply, [board_move, first]);
        assert(self.view_killers() =~= old(self).view_killers().update(
            ply as int,
            (board_move, old(self).view_killers()[ply as int].0),
        ));
    }

    /// The killers at `ply` (empty moves beyond the table).
    pub fn get_killers(&self, ply: usize) -> (r: [BoardMove; 2])
        ensures
            ply < self.view_killers().len() ==> (r[0], r[1]) == self.view_killers()[ply as int],
            ply >= self.view_killers().len() ==> r[0] == 0 && r[1] == 0,
    {
        if ply < self.killers.len() {
            self.killers[ply]
        } else {
            [0u16; 2]
        }
    }

    /// Empties every slot.
    pub fn clear(&mut self)
        ensures
            final(self).view_killers() == Seq::new(old(self).view_killers().len(), |i: int| (0u16, 0u16)),
            killers_distinct(final(self).view_killers()),
    {
        let n = self.killers.len();
        let mut i: usize = 0;
        while i < n
            invariant
                i <= n,
                self.killers@.len() == n,
                n == old(self).killers@.len(),
                forall|j: int| 0 <= j < i ==> (#[trigger] self.killers@[j])[0] == 0 && self.killers@[j][1] == 0,
            decreases n - i,
        {
            self.killers.set(i, [0u16, 0u16]);
            i = i + 1;
        }
        assert(self.view_killers() =~= Seq::new(old(self).view_killers().len(), |i: int| (0u16, 0u16)));
    }
}

} // verus!
