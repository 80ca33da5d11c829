//! One round of the bar: every agent predicts against the same history, then
//! attendance is counted, every agent is scored, and the ratio is recorded.

use vstd::prelude::*;
use rand::rngs::StdRng;
use crate::agent::AgentView;
use crate::grid::{AgentGrid, grid_cells, grid_rows, grid_cols, lemma_cell_index};
use crate::policy::Policy;
use crate::ratio::{SCALE, all_ratios, abs_diff};

verus! {

/// Agents predicting a ratio below this (0.6) go to the bar.
pub const THRESHOLD: u64 = 600000;

/// The largest number of agents a grid may hold: `u64::MAX / SCALE`, so that a
/// weight of at most `SCALE` per neighbour sums within a `u64`.
pub const MAX_CELLS: u64 = 18446744073709;

/// How many predictions are below the capacity threshold.
pub open spec fn count_going(preds: Seq<u64>) -> nat
    decreases preds.len(),
{
    if preds.len() == 0 {
        0
    } else {
        count_going(preds.drop_last()) + if preds.last() < THRESHOLD {
            1nat
        } else {
            0nat
        }
    }
}

/// `count / total` in fixed point, rounded down; 0 when there is nobody.
pub open spec fn attendance_ratio(count: nat, total: nat) -> int {
    if total == 0 {
        0
    } else {
        (count * SCALE) as int / (total as int)
    }
}

/// An agent after a round in which it predicted `pred` and the bar filled to `ratio`.
pub open spec fn settled(a: AgentView, pred: u64, ratio: u64) -> AgentView {
    AgentView {
        policy: a.policy,
        record: a.record.push(abs_diff(pred, ratio)),
        last_prediction: Some(pred),
    }
}

/// The predictions held by a grid's agents (0 where there is none).
pub open spec fn predictions_of(cells: Seq<AgentView>) -> Seq<u64> {
    Seq::new(
        cells.len(),
        |k: int|
            match cells[k].last_prediction {
                Some(p) => p,
                None => 0,
            },
    )
}

pub proof fn lemma_count_going_bound(preds: Seq<u64>)
    ensures
        count_going(preds) <= preds.len(),
    decreases preds.len(),
{
    if preds.len() > 0 {
        lemma_count_going_bound(preds.drop_last());
    }
}

/// The outcome of one round.
#[derive(Debug, Clone, Copy, PartialEq, Eq)]
pub struct GameResult {
    pub total_attendance: usize,
    pub total_agents: usize,
}

impl GameResult {
    /// The attendance ratio of the round: in `[0, SCALE]`, and equal to
    /// `total_attendance / total_agents` in fixed point.
    pub fn attendance_ratio(&self) -> (r: u64)
        requires
            self.total_attendance <= self.total_agents,
        ensures
            r == attendance_ratio(self.total_attendance as nat, self.total_agents as nat),
            r <= SCALE,
    {
        if self.total_agents == 0 {
            return 0;
        }
        let a = self.total_attendance as u128;
        let t = self.total_agents as u128;
        assert((a as int) * (SCALE as int) / (t as int) <= SCALE) by (nonlinear_arith)
            requires
                a <= t,
                t > 0,
        ;
        (a * (SCALE as u128) / t) as u64
    }
}

/// The grid of agents, the policies they share, and the shared history of
/// realized attendance ratios.
pub struct Game {
    pub grid: AgentGrid,
    pub policies: Vec<Policy>,
    pub history: Vec<u64>,
    /// The outcome of the last round played, if any.
    pub last_result: Option<GameResult>,
}

/// A grid whose agents all name one of `count` policies, and whose size is
/// within `MAX_CELLS` and what an array can hold.
pub open spec fn grid_fits(grid: AgentGrid, count: nat) -> bool {
    &&& grid.well_formed()
    &&& grid_rows(grid) * grid_cols(grid) <= MAX_CELLS
    &&& grid_rows(grid) * grid_cols(grid) <= isize::MAX
    &&& forall|k: int| 0 <= k < grid_cells(grid).len() ==> #[trigger] grid_cells(grid)[k].policy < count
}

pub open spec fn all_well_formed(policies: Seq<Policy>) -> bool {
    forall|i: int| 0 <= i < policies.len() ==> #[trigger] policies[i].well_formed()
}

impl Game {
    pub open spec fn well_formed(&self) -> bool {
        &&& grid_fits(self.grid, self.policies@.len())
        &&& all_well_formed(self.policies@)
        &&& all_ratios(self.history@)
    }

    pub fn new(grid: AgentGrid, policies: Vec<Policy>) -> (r: Game)
        requires
            grid_fits(grid, policies@.len()),
            all_well_formed(policies@),
        ensures
            r.grid == grid,
            r.policies == policies,
            r.history@.len() == 0,
            r.last_result is None,
            r.well_formed(),
    {
        Game { grid, policies, history: Vec::new(), last_result: None }
    }

    /// How many agents went to the bar in the last round (0 before any round).
    pub fn get_attendance(&self) -> (r: usize)
        ensures
            r == match self.last_result {
                Some(g) => g.total_attendance,
                None => 0,
            },
    {
        match self.last_result {
            Some(g) => g.total_attendance,
            None => 0,
        }
    }

    pub fn get_grid(&self) -> (r: &AgentGrid)
        ensures
            *r == self.grid,
    {
        &self.grid
    }

    pub fn get_history(&self) -> (r: &[u64])
        ensures
            r@ == self.history@,
    {
        self.history.as_slice()
    }

    pub fn set_grid(&mut self, grid: AgentGrid)
        requires
            grid_fits(grid, old(self).policies@.len()),
        ensures
            final(self).grid == grid,
            final(self).policies == old(self).policies,
            final(self).history == old(self).history,
    {
        self.grid = grid;
    }

    /// Plays one round. All predictions are made against the history as it stood
    /// before the round; then the attendance is counted, each agent is scored
    /// against the realized ratio, and the ratio is appended to the history.
    pub fn run(&mut self, rng: &mut StdRng) -> (res: GameResult)
        requires
            old(self).well_formed(),
        ensures
            final(self).well_formed(),
            final(self).last_result == Some(res),
            ({
                let before = grid_cells(old(self).grid);
                let after = grid_cells(final(self).grid);
                let preds = predictions_of(after);
                let ratio = attendance_ratio(res.total_attendance as nat, res.total_agents as nat);
                &&& grid_rows(final(self).grid) == grid_rows(old(self).grid)
                &&& grid_cols(final(self).grid) == grid_cols(old(self).grid)
                &&& after.len() == before.len()
                &&& res.total_agents == before.len()
                &&& res.total_attendance == count_going(preds)
                &&& 0 <= ratio <= SCALE
                &&& final(self).history@ == old(self).history@.push(ratio as u64)
                &&& forall|k: int|
                    0 <= k < after.len() ==> #[trigger] after[k] == settled(
                        before[k],
                        preds[k],
                        ratio as u64,
                    )
                &&& forall|k: int|
                    0 <= k < after.len() ==> final(self).policies@[before[k].policy as int].allows(
                        old(self).history@,
                        #[trigger] preds[k],
                    )
            }),
            final(self).policies@.len() == old(self).policies@.len(),
            forall|i: int|
                0 <= i < old(self).policies@.len() ==> old(self).policies@[i].evolves_to(
                    #[trigger] final(self).policies@[i],
                ),
    {
        let rows = self.grid.rows();
        let cols = self.grid.cols();
        let n = rows * cols;
        let ghost cells0 = grid_cells(self.grid);
        let ghost pols0 = self.policies@;
        let ghost h = self.history@;
        proof {
            assert forall|i: int| 0 <= i < pols0.len() implies pols0[i].evolves_to(
                #[trigger] self.policies@[i],
            ) by {
                crate::policy::lemma_evolves_reflexive(pols0[i]);
            }
        }
        let mut preds: Vec<u64> = Vec::new();
        let mut k: usize = 0;
        while k < n
            invariant
                n == rows * cols == cells0.len(),
                rows == grid_rows(self.grid),
                cols == grid_cols(self.grid),
                n <= MAX_CELLS,
                n <= isize::MAX,
                self.grid == old(self).grid,
                cells0 == grid_cells(self.grid),
                self.history == old(self).history,
                h == self.history@,
                all_ratios(h),
                forall|m: int| 0 <= m < n ==> #[trigger] cells0[m].policy < pols0.len(),
                self.policies@.len() == pols0.len(),
                all_well_formed(self.policies@),
                forall|i: int|
                    0 <= i < pols0.len() ==> pols0[i].evolves_to(#[trigger] self.policies@[i]),
                k <= n,
                preds@.len() == k,
                forall|m: int|
                    0 <= m < k ==> self.policies@[cells0[m].policy as int].allows(
                        h,
                        #[trigger] preds@[m],
                    ),
            decreases n - k,
        {
            proof {
                lemma_cell_index(k as int, rows as int, cols as int);
            }
            let row = k / cols;
            let col = k % cols;
            assert(row * cols + col == k);
            let pi = self.grid.get(row, col).policy;
            assert(pi == cells0[k as int].policy);
            let ghost before = self.policies@;
            let p = self.policies[pi].decide(self.history.as_slice(), rng);
            proof {
                assert forall|i: int| 0 <= i < pols0.len() implies pols0[i].evolves_to(
                    #[trigger] self.policies@[i],
                ) by {
                    if i == pi {
                        crate::policy::lemma_evolves_transitive(pols0[i], before[i], self.policies@[i]);
                    }
                }
                assert forall|m: int| 0 <= m < k implies self.policies@[cells0[m].policy as int].allows(
                    h,
                    #[trigger] preds@[m],
                ) by {
                    if cells0[m].policy == pi {
                        crate::policy::lemma_allows_kept(before[pi as int], self.policies@[pi as int], h, preds@[m]);
                    }
                }
            }
            preds.push(p);
            k = k + 1;
        }
        let ghost pols1 = self.policies@;
        let mut attendance: usize = 0;
        k = 0;
        while k < n
            invariant
                n == preds@.len(),
                k <= n,
                attendance == count_going(preds@.subrange(0, k as int)),
                attendance <= k,
            decreases n - k,
        {
            assert(preds@.subrange(0, k as int + 1).drop_last() =~= preds@.subrange(0, k as int));
            if preds[k] < THRESHOLD {
                attendance = attendance + 1;
            }
            k = k + 1;
        }
        assert(preds@.subrange(0, n as int) =~= preds@);
        let result = GameResult { total_attendance: attendance, total_agents: n };
        let ratio = result.attendance_ratio();
        k = 0;
        while k < n
            invariant
                n == rows * cols == cells0.len(),
                n == preds@.len(),
                rows == grid_rows(self.grid),
                cols == grid_cols(self.grid),
                grid_cells(self.grid).len() == n,
                forall|m: int| 0 <= m < n ==> #[trigger] cells0[m].policy < pols0.len(),
                self.policies@ == pols1,
                pols1.len() == pols0.len(),
                n <= MAX_CELLS,
                n <= isize::MAX,
                self.history@ == h,
                all_ratios(h),
                ratio <= SCALE,
                k <= n,
                forall|m: int|
                    0 <= m < k ==> #[trigger] grid_cells(self.grid)[m] == settled(
                        cells0[m],
                        preds@[m],
                        ratio,
                    ),
                forall|m: int| k <= m < n ==> #[trigger] grid_cells(self.grid)[m] == cells0[m],
            decreases n - k,
        {
            proof {
                lemma_cell_index(k as int, rows as int, cols as int);
            }
            let row = k / cols;
            let col = k % cols;
            let mut a = self.grid.get(row, col).duplicate();
            a.last_prediction = Some(preds[k]);
            a.update_performance(ratio);
            self.grid.set(row, col, a);
            k = k + 1;
        }
        self.history.push(ratio);
        self.last_result = Some(result);
        proof {
            let after = grid_cells(self.grid);
            assert(predictions_of(after) =~= preds@);
            assert forall|m: int| 0 <= m < after.len() implies #[trigger] after[m].policy
                < self.policies@.len() by {
                assert(after[m] == settled(cells0[m], preds@[m], ratio));
            }
            assert(all_ratios(self.history@)) by {
                assert forall|i: int| 0 <= i < self.history@.len() implies self.history@[i]
                    <= SCALE by {
                    if i < h.len() {
                        assert(self.history@[i] == h[i]);
                    }
                }
            }
        }
        result
    }
}

} // verus!
