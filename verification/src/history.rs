use vstd::prelude::*;
use crate::board_move::{BoardMove, get_from, get_to, move_from, move_to};

verus! {

/// Rust's division by two, which rounds toward zero.
pub open spec fn halve(x: int) -> int {
    if x >= 0 {
        x / 2
    } else {
        -((-x) / 2)
    }
}

/// History heuristic scores indexed by source and target square.
#[derive(Clone)]
pub struct HistoryTable {
    scores: Vec<i32>,
    max_score: i32,
}

impl HistoryTable {
    /// Scores laid out as `from * 64 + to`.
    pub closed spec fn view_scores(&self) -> Seq<i32> {
        self.scores@
    }

    /// The threshold above which all scores are halved.
    pub closed spec fn spec_max_score(&self) -> i32 {
        self.max_score
    }

    /// 4096 scores, one per pair of squares, and the threshold 8192.
    pub open spec fn wf(&self) -> bool {
        self.view_scores().len() == 4096 && self.spec_max_score() == 8192
    }

    /// Every score lies within minus and plus the threshold.
    pub open spec fn scores_in_range(&self) -> bool {
        forall|i: int| 0 <= i < self.view_scores().len() ==> -8192 <= #[trigger] self.view_scores()[i] <= 8192
    }

    /// The score of a move.
    pub open spec fn score_of(&self, m: BoardMove) -> i32 {
        self.view_scores()[move_from(m) * 64 + move_to(m)]
    }

    /// All scores zero, threshold 8192.
    pub fn new() -> (r: Self)
        ensures
            r.wf(),
            r.scores_in_range(),
            r.view_scores() == Seq::new(4096, |i: int| 0i32),
            r.spec_max_score() == 8192,
    {
        let mut scores: Vec<i32> = Vec::new();
        let mut i: usize = 0;
        while i < 4096
            invariant
                i <= 4096,
                scores@.len() == i,
                forall|j: int| 0 <= j < i ==> scores@[j] == 0,
            decreases 4096 - i,
        {
            scores.push(0);
            i = i + 1;
        }
        let r = Self { scores, max_score: 8192 };
        assert(r.view_scores() =~= Seq::new(4096, |i: int| 0i32));
        r
    }

    /// Adds `depth * depth` to the move's score; when the score then exceeds
    /// the threshold, every score is halved (rounding toward zero). Scores
    /// within the threshold stay within it when `depth * depth` is at most
    /// the threshold.
    pub fn add_history(&mut self, board_move: BoardMove, depth: usize)
        requires
            old(self).wf(),
            depth * depth <= usize::MAX,
            i32::MIN <= old(self).score_of(board_move) + ((depth * depth) as i32) <= i32::MAX,
        ensures
            final(self).wf(),
            old(self).scores_in_range() && depth * depth <= 8192 ==> final(self).scores_in_range(),
            ({
                let k = move_from(board_move) * 64 + move_to(board_move);
                let raised = old(self).view_scores()[k] + ((depth * depth) as i32);
                let bumped = old(self).view_scores().update(k, raised as i32);
                final(self).view_scores() == if raised > 8192 {
                    Seq::new(4096, |i: int| halve(bumped[i] as int) as i32)
                } else {
                    bumped
                }
            }),
    {
        let from = get_from(board_move) as usize;
        let to = get_to(board_move) as usize;
        let bonus = (depth * depth) as i32;
        let k = from * 64 + to;
        let v = self.scores[k] + bonus;
        self.scores.set(k, v);
        if self.scores[k] > self.max_score {
            self.age_history();
        }
    }

    /// Subtracts `depth * depth / 2` from the move's score, not going below
    /// minus the threshold; scores within the threshold stay within it while
    /// the penalty fits 32 bits.
    pub fn add_history_penalty(&mut self, board_move: BoardMove, depth: usize)
        requires
            old(self).wf(),
            depth * depth <= usize::MAX,
            i32::MIN <= old(self).score_of(board_move) - (((depth * depth) / 2) as i32) <= i32::MAX,
        ensures
            final(self).wf(),
            old(self).scores_in_range() && (depth * depth) / 2 <= i32::MAX ==> final(self).scores_in_range(),
            ({
                let k = move_from(board_move) * 64 + move_to(board_move);
                let lowered = old(self).view_scores()[k] - (((depth * depth) / 2) as i32);
                final(self).view_scores() == old(self).view_scores().update(
                    k,
                    (if lowered < -8192 {
                        -8192
                    } else {
                        lowered
                    }) as i32,
                )
            }),
    {
        let from = get_from(board_move) as usize;
        let to = get_to(board_move) as usize;
        let penalty = ((depth * depth) / 2) as i32;
        let k = from * 64 + to;
        let lowered = self.scores[k] - penalty;
        let floor = -self.max_score;
        let v = if lowered < floor {
            floor
        } else {
            lowered
        };
        self.scores.set(k, v);
    }

    /// The score of a move.
    pub fn get_history_score(&self, board_move: &BoardMove) -> (r: i32)
        requires
            self.wf(),
        ensures
            r == self.score_of(*board_move),
    {
        let from = get_from(*board_move) as usize;
        let to = get_to(*board_move) as usize;
        self.scores[from * 64 + to]
    }

    /// Halves every score, rounding toward zero.
    fn age_history(&mut self)
        requires
            old(self).wf(),
        ensures
            final(self).wf(),
            final(self).view_scores() == Seq::new(4096, |i: int| halve(old(self).view_scores()[i] as int) as i32),
    {
        let mut i: usize = 0;
        while i < 4096
            invariant
                i <= 4096,
                self.wf(),
                forall|j: int| 0 <= j < i ==> self.scores@[j] == halve(old(self).scores@[j] as int) as i32,
                forall|j: int| i <= j < 4096 ==> self.scores@[j] == old(self).scores@[j],
            decreases 4096 - i,
        {
            let v = self.scores[i] / 2;
            self.scores.set(i, v);
            i = i + 1;
        }
        assert(self.view_scores() =~= Seq::new(4096, |i: int| halve(old(self).view_scores()[i] as int) as i32));
    }
}

} // verus!
