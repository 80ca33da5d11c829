//! The simulation: a square grid of agents that plays batches of rounds and
//! then lets every agent imitate a neighbour, all from one snapshot.

use vstd::prelude::*;
use rand::rngs::StdRng;
use crate::agent::{Agent, AgentView, Neighbor, valid_choice, performance_of};
use crate::game::{Game, MAX_CELLS, grid_fits, all_well_formed, predictions_of};
use crate::grid::{AgentGrid, grid_cells, grid_rows, grid_cols, lemma_cell_index, lemma_side_within_square};
use crate::policy::Policy;
use crate::random::{draw_below, seeded};
use crate::ratio::{SCALE, all_ratios};

verus! {

/// What a simulation is set up with.
pub struct SimulationConfig {
    pub name: String,
    pub description: String,
    /// Side of the square grid.
    pub grid_size: usize,
    /// Manhattan radius of the neighbourhood an agent imitates from.
    pub neighbor_distance: usize,
    /// Softmax temperature in fixed point; 0 selects greedily.
    pub temperature: u64,
    /// Probability, in fixed point, that an agent skips an adaptation.
    pub policy_retention_rate: u64,
    pub num_iterations: usize,
    /// Rounds played between two adaptations.
    pub rounds_per_update: usize,
    pub initial_strategies: Vec<Policy>,
    /// Assign policies at random, rather than the base policy with distinct corners.
    pub start_random: bool,
}

/// What one iteration hands out: the policy index and the last prediction of
/// every cell (row after row), and the last realized attendance ratio.
pub struct Frame {
    pub policy_ids: Vec<usize>,
    pub predictions: Vec<u64>,
    pub attendance_ratio: u64,
}

/// Per-round records: the attendance ratio of every round played so far, and
/// how many agents held each policy during it.
pub struct Statistics {
    pub attendance_ratios: Vec<u64>,
    pub policy_counts: Vec<Vec<usize>>,
}

impl Statistics {
    /// Number of rounds recorded.
    pub fn len(&self) -> (r: usize)
        ensures
            r == self.attendance_ratios@.len(),
    {
        self.attendance_ratios.len()
    }
}

/// How many of the agents hold policy `p`.
pub open spec fn policy_count(cells: Seq<AgentView>, p: int) -> nat
    decreases cells.len(),
{
    if cells.len() == 0 {
        0
    } else {
        policy_count(cells.drop_last(), p) + if cells.last().policy == p {
            1nat
        } else {
            0nat
        }
    }
}

proof fn lemma_policy_count_bound(cells: Seq<AgentView>, p: int)
    ensures
        policy_count(cells, p) <= cells.len(),
    decreases cells.len(),
{
    if cells.len() > 0 {
        lemma_policy_count_bound(cells.drop_last(), p);
    }
}

/// For each of the `count` policies, how many agents of the grid hold it.
pub fn count_policies(grid: &AgentGrid, count: usize) -> (r: Vec<usize>)
    requires
        grid_fits(*grid, count as nat),
    ensures
        r@.len() == count,
        forall|p: int| 0 <= p < count ==> #[trigger] r@[p] == policy_count(grid_cells(*grid), p),
{
    let rows = grid.rows();
    let cols = grid.cols();
    let n = rows * cols;
    let ghost cells = grid_cells(*grid);
    let mut counts: Vec<usize> = Vec::new();
    while counts.len() < count
        invariant
            counts@.len() <= count,
            forall|p: int| 0 <= p < counts@.len() ==> #[trigger] counts@[p] == 0,
        decreases count - counts@.len(),
    {
        counts.push(0);
    }
    assert(cells.subrange(0, 0) =~= Seq::<AgentView>::empty());
    let mut k: usize = 0;
    while k < n
        invariant
            n == rows * cols == cells.len(),
            rows == grid_rows(*grid),
            cols == grid_cols(*grid),
            cells == grid_cells(*grid),
            grid_fits(*grid, count as nat),
            k <= n,
            counts@.len() == count,
            forall|p: int|
                0 <= p < count ==> #[trigger] counts@[p] == policy_count(cells.subrange(0, k as int), p),
        decreases n - k,
    {
        proof {
            lemma_cell_index(k as int, rows as int, cols as int);
            assert(cells.subrange(0, k as int + 1).drop_last() =~= cells.subrange(0, k as int));
            assert forall|p: int| 0 <= p < count implies counts@[p] <= k by {
                lemma_policy_count_bound(cells.subrange(0, k as int), p);
            }
        }
        assert((k / cols) * cols + k % cols == k);
        let p = grid.get(k / cols, k % cols).policy;
        assert(p == cells[k as int].policy);
        let c = counts[p];
        counts.set(p, c + 1);
        k = k + 1;
    }
    assert(cells.subrange(0, n as int) =~= cells);
    counts
}

pub open spec fn neighbor_view(a: AgentView) -> Neighbor {
    Neighbor { policy: a.policy, performance: performance_of(a.record) as u64 }
}

/// First row (or column) of the box around `i` of radius `d`.
pub open spec fn low_end(i: int, d: int) -> int {
    if i >= d {
        i - d
    } else {
        0
    }
}

/// Last row (or column) of the box around `i` of radius `d` in a grid of side `side`.
pub open spec fn high_end(i: int, d: int, side: int) -> int {
    if d >= side - 1 - i {
        side - 1
    } else {
        i + d
    }
}

pub open spec fn box_len(i: int, d: int, side: int) -> int {
    high_end(i, d, side) - low_end(i, d) + 1
}

pub open spec fn abs(x: int) -> int {
    if x >= 0 {
        x
    } else {
        -x
    }
}

/// Grid position `k` (row-major, rows of length `side`) lies within Manhattan
/// distance `d` of `(i, j)`.
pub open spec fn within(side: int, d: int, i: int, j: int, k: int) -> bool {
    abs(i - k / side) + abs(j - k % side) <= d
}

/// The neighbours of `(i, j)` among the first `m` cells of the grid, in
/// row-major order.
pub open spec fn neighbors_among(cells: Seq<AgentView>, side: int, d: int, i: int, j: int, m: nat) -> Seq<
    Neighbor,
>
    decreases m,
{
    if m == 0 {
        Seq::empty()
    } else {
        let prev = neighbors_among(cells, side, d, i, j, (m - 1) as nat);
        if within(side, d, i, j, m - 1) {
            prev.push(neighbor_view(cells[m - 1]))
        } else {
            prev
        }
    }
}

/// The neighbourhood of `(i, j)`: every cell within Manhattan distance `d`, the
/// cell itself included, in row-major order, with its policy and performance.
pub open spec fn neighborhood(cells: Seq<AgentView>, side: int, d: int, i: int, j: int) -> Seq<Neighbor> {
    neighbors_among(cells, side, d, i, j, (side * side) as nat)
}

/// `p` is a policy the cell `(i, j)` may hold after adaptation from the snapshot
/// `cells`: its own, when it kept it (possible only with a positive retention
/// rate), or that of a neighbour chosen as `valid_choice` allows (possible only
/// with a retention rate below 1).
pub open spec fn cell_adapted(
    cells: Seq<AgentView>,
    side: int,
    d: int,
    temperature: u64,
    retention: u64,
    i: int,
    j: int,
    p: usize,
) -> bool {
    let ns = neighborhood(cells, side, d, i, j);
    ||| (p == cells[i * side + j].policy && retention > 0)
    ||| (retention < SCALE && exists|c: int| valid_choice(ns, c, temperature) && p == #[trigger] ns[c].policy)
}

/// Index of the first `NeverGo` policy, or -1.
pub open spec fn first_never_go(ps: Seq<Policy>) -> int
    decreases ps.len(),
{
    if ps.len() == 0 {
        -1
    } else {
        let f = first_never_go(ps.drop_last());
        if f >= 0 {
            f
        } else if ps.last() is NeverGo {
            ps.len() - 1
        } else {
            -1
        }
    }
}

/// The base policy of the deterministic setup: the first `NeverGo`, else the first policy.
pub open spec fn base_index(ps: Seq<Policy>) -> int {
    if first_never_go(ps) >= 0 {
        first_never_go(ps)
    } else {
        0
    }
}

/// Indices of the policies that are not the same policy as `base`, in order.
pub open spec fn other_indices(ps: Seq<Policy>, base: Policy) -> Seq<usize>
    decreases ps.len(),
{
    if ps.len() == 0 {
        Seq::empty()
    } else {
        let o = other_indices(ps.drop_last(), base);
        if ps.last().same_identity(base) {
            o
        } else {
            o.push((ps.len() - 1) as usize)
        }
    }
}

/// The policy of cell `(r, c)` in the deterministic setup: the base policy
/// everywhere but the corners, which take the other policies in turn
/// (top-left, top-right, bottom-left, bottom-right).
pub open spec fn initial_policy(ps: Seq<Policy>, side: int, r: int, c: int) -> int {
    let base = base_index(ps);
    let o = other_indices(ps, ps[base]);
    let m = o.len() as int;
    if m == 0 {
        base
    } else if side > 1 && r == side - 1 && c == side - 1 {
        o[3int % m] as int
    } else if side > 1 && r == side - 1 && c == 0 {
        o[2int % m] as int
    } else if side > 1 && r == 0 && c == side - 1 {
        o[1int % m] as int
    } else if r == 0 && c == 0 {
        o[0] as int
    } else {
        base
    }
}

proof fn lemma_first_never_go(ps: Seq<Policy>)
    ensures
        -1 <= first_never_go(ps) < ps.len(),
        first_never_go(ps) >= 0 ==> ps[first_never_go(ps)] is NeverGo,
        first_never_go(ps) >= 0 ==> forall|i: int| 0 <= i < first_never_go(ps) ==> !(ps[i] is NeverGo),
        first_never_go(ps) < 0 ==> forall|i: int| 0 <= i < ps.len() ==> !(ps[i] is NeverGo),
    decreases ps.len(),
{
    if ps.len() > 0 {
        lemma_first_never_go(ps.drop_last());
        assert forall|i: int| 0 <= i < ps.len() - 1 implies ps[i] == ps.drop_last()[i] by {}
    }
}

proof fn lemma_other_indices(ps: Seq<Policy>, base: Policy)
    ensures
        forall|t: int| 0 <= t < other_indices(ps, base).len() ==> #[trigger] other_indices(ps, base)[t] < ps.len(),
        other_indices(ps, base).len() <= ps.len(),
    decreases ps.len(),
{
    if ps.len() > 0 {
        lemma_other_indices(ps.drop_last(), base);
    }
}

proof fn lemma_neighbors_among_policies(
    cells: Seq<AgentView>,
    side: int,
    d: int,
    i: int,
    j: int,
    m: nat,
    count: nat,
)
    requires
        m <= cells.len(),
        forall|k: int| 0 <= k < cells.len() ==> #[trigger] cells[k].policy < count,
    ensures
        forall|e: int|
            0 <= e < neighbors_among(cells, side, d, i, j, m).len() ==> #[trigger] neighbors_among(
                cells,
                side,
                d,
                i,
                j,
                m,
            )[e].policy < count,
    decreases m,
{
    if m > 0 {
        lemma_neighbors_among_policies(cells, side, d, i, j, (m - 1) as nat, count);
        let prev = neighbors_among(cells, side, d, i, j, (m - 1) as nat);
        assert forall|e: int| 0 <= e < neighbors_among(cells, side, d, i, j, m).len() implies #[trigger] neighbors_among(
            cells,
            side,
            d,
            i,
            j,
            m,
        )[e].policy < count by {
            if e < prev.len() {
                assert(neighbors_among(cells, side, d, i, j, m)[e] == prev[e]);
            }
        }
    }
}

proof fn lemma_neighbors_among_grows(cells: Seq<AgentView>, side: int, d: int, i: int, j: int, m1: nat, m2: nat)
    requires
        m1 <= m2,
    ensures
        neighbors_among(cells, side, d, i, j, m1).len() <= neighbors_among(cells, side, d, i, j, m2).len(),
        neighbors_among(cells, side, d, i, j, m2).len() <= neighbors_among(cells, side, d, i, j, m1).len() + (m2 - m1),
    decreases m2,
{
    if m1 < m2 {
        lemma_neighbors_among_grows(cells, side, d, i, j, m1, (m2 - 1) as nat);
    }
}

/// Cells that are not within distance leave the list as it was.
proof fn lemma_neighbors_among_skip(cells: Seq<AgentView>, side: int, d: int, i: int, j: int, m1: nat, m2: nat)
    requires
        m1 <= m2,
        forall|k: int| m1 <= k < m2 ==> !#[trigger] within(side, d, i, j, k),
    ensures
        neighbors_among(cells, side, d, i, j, m2) == neighbors_among(cells, side, d, i, j, m1),
    decreases m2,
{
    if m1 < m2 {
        lemma_neighbors_among_skip(cells, side, d, i, j, m1, (m2 - 1) as nat);
    }
}

/// The cell `(a, b)` sits at position `a * side + b`.
proof fn lemma_position(side: int, a: int, b: int)
    requires
        0 <= a,
        0 <= b < side,
    ensures
        (a * side + b) / side == a,
        (a * side + b) % side == b,
{
    vstd::arithmetic::div_mod::lemma_fundamental_div_mod_converse_div(a * side + b, side, a, b);
    vstd::arithmetic::div_mod::lemma_fundamental_div_mod_converse_mod(a * side + b, side, a, b);
}

/// A cell outside the box around `(i, j)` is not within distance.
proof fn lemma_outside_box(side: int, d: int, i: int, j: int, k: int)
    requires
        0 <= i < side,
        0 <= j < side,
        d >= 0,
        0 <= k < side * side,
        !(low_end(i, d) <= k / side <= high_end(i, d, side) && low_end(j, d) <= k % side <= high_end(
            j,
            d,
            side,
        )),
    ensures
        !within(side, d, i, j, k),
{
    lemma_cell_index(k, side, side);
}

/// A cell is in its own neighbourhood.
proof fn lemma_neighborhood_has_self(cells: Seq<AgentView>, side: int, d: int, i: int, j: int)
    requires
        0 <= i < side,
        0 <= j < side,
        d >= 0,
    ensures
        neighborhood(cells, side, d, i, j).len() > 0,
{
    let k0 = i * side + j;
    lemma_position(side, i, j);
    assert(k0 + 1 <= side * side) by (nonlinear_arith)
        requires
            k0 == i * side + j,
            0 <= i < side,
            0 <= j < side,
    ;
    assert(within(side, d, i, j, k0));
    assert(neighbors_among(cells, side, d, i, j, (k0 + 1) as nat).len() > 0);
    lemma_neighbors_among_grows(cells, side, d, i, j, (k0 + 1) as nat, (side * side) as nat);
}

/// The grid the simulation plays on: square, of side `side`, with every agent
/// naming one of `count` policies.
pub open spec fn square_grid(grid: AgentGrid, side: nat, count: nat) -> bool {
    &&& grid_rows(grid) == side
    &&& grid_cols(grid) == side
    &&& grid_fits(grid, count)
}

/// Grid position of the `t`-th cell of a box whose rows are `w` long and start
/// at `(lo_i, lo_j)`; the end of the grid once the `total` cells are done.
pub open spec fn box_position(side: int, lo_i: int, lo_j: int, w: int, total: int, t: int) -> nat {
    if t < total {
        ((lo_i + t / w) * side + lo_j + t % w) as nat
    } else {
        (side * side) as nat
    }
}

/// Position `k` lies in row `a` when it falls between the row's first cell and
/// the next row's.
proof fn lemma_row_of(side: int, a: int, k: int)
    requires
        0 <= a,
        a * side <= k < a * side + side,
    ensures
        k / side == a,
        k % side == k - a * side,
{
    vstd::arithmetic::div_mod::lemma_fundamental_div_mod_converse_div(k, side, a, k - a * side);
    vstd::arithmetic::div_mod::lemma_fundamental_div_mod_converse_mod(k, side, a, k - a * side);
}

/// After the `t`-th cell of the box, the neighbours found so far are those among
/// the grid cells up to the next cell of the box.
proof fn lemma_box_step(cells: Seq<AgentView>, side: int, d: int, i: int, j: int, w: int, h: int, t: int)
    requires
        0 <= i < side,
        0 <= j < side,
        d >= 0,
        h == box_len(i, d, side),
        w == box_len(j, d, side),
        low_end(i, d) + h - 1 == high_end(i, d, side) < side,
        low_end(j, d) + w - 1 == high_end(j, d, side) < side,
        0 < h,
        0 < w,
        0 <= t < h * w,
    ensures
        ({
            let g = box_position(side, low_end(i, d), low_end(j, d), w, h * w, t);
            let next = box_position(side, low_end(i, d), low_end(j, d), w, h * w, t + 1);
            neighbors_among(cells, side, d, i, j, next) == neighbors_among(cells, side, d, i, j, g + 1)
        }),
{
    let lo_i = low_end(i, d);
    let lo_j = low_end(j, d);
    let hi_i = high_end(i, d, side);
    let hi_j = high_end(j, d, side);
    lemma_cell_index(t, h, w);
    let a = lo_i + t / w;
    let b = lo_j + t % w;
    let g = a * side + b;
    let next = box_position(side, lo_i, lo_j, w, h * w, t + 1);
    lemma_position(side, a, b);
    assert(g < side * side) by (nonlinear_arith)
        requires
            g == a * side + b,
            0 <= a < side,
            0 <= b < side,
    ;
    let q = t / w;
    let r = t % w;
    assert(t == q * w + r && q < h && 0 <= r < w);
    if r < w - 1 {
        // next cell of the same box row
        assert((q + 1) * w <= h * w) by (nonlinear_arith)
            requires
                0 <= q < h,
                w > 0,
        ;
        assert((q + 1) * w == q * w + w) by (nonlinear_arith);
        assert(t + 1 < h * w);
        vstd::arithmetic::div_mod::lemma_fundamental_div_mod_converse_div(t + 1, w, q, r + 1);
        vstd::arithmetic::div_mod::lemma_fundamental_div_mod_converse_mod(t + 1, w, q, r + 1);
        assert(next == g + 1);
    } else {
        // the box row ends: every cell up to the next box row is outside the box
        assert(b == hi_j);
        assert((q + 1) * w == q * w + w) by (nonlinear_arith);
        assert(side * (a + 2) == side * (a + 1) + side) by (nonlinear_arith);
        assert((a + 1) * side == a * side + side) by (nonlinear_arith);
        assert((a + 2) * side == (a + 1) * side + side) by (nonlinear_arith);
        if t + 1 < h * w {
            vstd::arithmetic::div_mod::lemma_fundamental_div_mod_converse_div(t + 1, w, q + 1, 0);
            vstd::arithmetic::div_mod::lemma_fundamental_div_mod_converse_mod(t + 1, w, q + 1, 0);
            assert(next == (a + 1) * side + lo_j);
            assert(q + 1 < h) by (nonlinear_arith)
                requires
                    (q + 1) * w == t + 1,
                    t + 1 < h * w,
                    w > 0,
            ;
            assert(next <= side * side) by (nonlinear_arith)
                requires
                    next == (a + 1) * side + lo_j,
                    a + 1 <= side - 1,
                    lo_j < side,
                    side > 0,
            ;
        } else {
            assert(q >= h - 1) by (nonlinear_arith)
                requires
                    t + 1 >= h * w,
                    t == q * w + r,
                    r == w - 1,
                    w > 0,
            ;
            assert(a == hi_i);
        }
        assert(g + 1 <= next);
        assert forall|k: int| g + 1 <= k < next implies !#[trigger] within(side, d, i, j, k) by {
            lemma_cell_index(k, side, side);
            if k < (a + 1) * side {
                lemma_row_of(side, a, k);
            } else if t + 1 < h * w {
                lemma_row_of(side, a + 1, k);
            } else {
                let kq = k / side;
                let kr = k % side;
                if kq <= a {
                    assert(kq * side <= a * side) by (nonlinear_arith)
                        requires
                            kq <= a,
                            side > 0,
                    ;
                    assert(k == kq * side + kr);
                }
                assert(kq > hi_i);
            }
            lemma_outside_box(side, d, i, j, k);
        }
        lemma_neighbors_among_skip(cells, side, d, i, j, (g + 1) as nat, next);
    }
}

/// Collects the neighbourhood of `(i, j)` from the grid.
pub fn gather_neighbors(grid: &AgentGrid, side: usize, d: usize, i: usize, j: usize) -> (r: Vec<Neighbor>)
    requires
        grid_rows(*grid) == side,
        grid_cols(*grid) == side,
        grid.well_formed(),
        side * side <= MAX_CELLS,
        side * side <= isize::MAX,
        i < side,
        j < side,
    ensures
        r@ == neighborhood(grid_cells(*grid), side as int, d as int, i as int, j as int),
        r@.len() <= side * side,
{
    let ghost cells = grid_cells(*grid);
    let lo_i = if i >= d { i - d } else { 0 };
    let hi_i = if d >= side - 1 - i { side - 1 } else { i + d };
    let lo_j = if j >= d { j - d } else { 0 };
    let hi_j = if d >= side - 1 - j { side - 1 } else { j + d };
    let h = hi_i - lo_i + 1;
    let w = hi_j - lo_j + 1;
    assert(h * w <= side * side) by (nonlinear_arith)
        requires
            0 < h <= side,
            0 < w <= side,
    ;
    let total = h * w;
    let mut out: Vec<Neighbor> = Vec::new();
    let mut t: usize = 0;
    proof {
        lemma_side_within_square(side as int);
        let g0 = lo_i * side + lo_j;
        assert(g0 < side * side) by (nonlinear_arith)
            requires
                g0 == lo_i * side + lo_j,
                lo_i < side,
                lo_j < side,
        ;
        assert forall|k: int| 0 <= k < g0 implies !#[trigger] within(
            side as int,
            d as int,
            i as int,
            j as int,
            k,
        ) by {
            lemma_cell_index(k, side as int, side as int);
            let q = k / (side as int);
            let r = k % (side as int);
            assert(q < lo_i || (q == lo_i && r < lo_j)) by (nonlinear_arith)
                requires
                    k == q * side + r,
                    0 <= r < side,
                    k < lo_i * side + lo_j,
                    lo_j < side,
            ;
            lemma_outside_box(side as int, d as int, i as int, j as int, k);
        }
        lemma_neighbors_among_skip(cells, side as int, d as int, i as int, j as int, 0, g0 as nat);
        assert(0int / (w as int) == 0 && 0int % (w as int) == 0);
        assert(total > 0) by (nonlinear_arith)
            requires
                total == h * w,
                h > 0,
                w > 0,
        ;
    }
    while t < total
        invariant
            t <= total == h * w,
            h == box_len(i as int, d as int, side as int),
            w == box_len(j as int, d as int, side as int),
            lo_i == low_end(i as int, d as int),
            lo_j == low_end(j as int, d as int),
            hi_i == high_end(i as int, d as int, side as int),
            hi_j == high_end(j as int, d as int, side as int),
            lo_i + h - 1 == hi_i < side,
            lo_j + w - 1 == hi_j < side,
            i < side,
            j < side,
            grid_rows(*grid) == side,
            grid_cols(*grid) == side,
            cells == grid_cells(*grid),
            out@ == neighbors_among(cells, side as int, d as int, i as int, j as int, box_position(
                side as int,
                lo_i as int,
                lo_j as int,
                w as int,
                total as int,
                t as int,
            )),
            side * side <= MAX_CELLS,
            side * side <= isize::MAX,
        decreases total - t,
    {
        proof {
            lemma_cell_index(t as int, h as int, w as int);
        }
        let a = lo_i + t / w;
        let b = lo_j + t % w;
        assert(side <= side * side) by (nonlinear_arith)
            requires
                side > 0,
        ;
        let di = if a >= i { a - i } else { i - a };
        let dj = if b >= j { b - j } else { j - b };
        let ghost g = a * side + b;
        proof {
            lemma_position(side as int, a as int, b as int);
            assert(g < side * side) by (nonlinear_arith)
                requires
                    g == a * side + b,
                    a < side,
                    b < side,
            ;
        }
        if di + dj <= d {
            let agent = grid.get(a, b);
            let perf = agent.performance();
            out.push(Neighbor { policy: agent.policy, performance: perf });
        }
        proof {
            lemma_box_step(cells, side as int, d as int, i as int, j as int, w as int, h as int, t as int);
        }
        t = t + 1;
    }
    proof {
        lemma_neighbors_among_grows(cells, side as int, d as int, i as int, j as int, 0, (side * side) as nat);
    }
    out
}

/// The simulation state.
pub struct Simulation {
    pub game: Game,
    pub name: String,
    pub description: String,
    pub grid_size: usize,
    pub neighbor_distance: usize,
    pub temperature: u64,
    pub policy_retention_rate: u64,
    pub num_iterations: usize,
    pub rounds_per_update: usize,
    pub start_random: bool,
    pub statistics: Statistics,
    pub rng: StdRng,
}

impl Simulation {
    pub open spec fn well_formed(&self) -> bool {
        &&& self.game.well_formed()
        &&& grid_rows(self.game.grid) == self.grid_size
        &&& grid_cols(self.game.grid) == self.grid_size
        &&& self.policy_retention_rate <= SCALE
        &&& all_ratios(self.statistics.attendance_ratios@)
    }

    pub open spec fn cells(&self) -> Seq<AgentView> {
        grid_cells(self.game.grid)
    }

    /// Sets the grid up from `config`, drawing from a generator seeded with `seed`.
    pub fn new(config: SimulationConfig, seed: u64) -> (r: Simulation)
        requires
            config.initial_strategies@.len() > 0,
            all_well_formed(config.initial_strategies@),
            config.grid_size * config.grid_size <= MAX_CELLS,
            config.grid_size * config.grid_size <= isize::MAX,
            config.policy_retention_rate <= SCALE,
        ensures
            r.well_formed(),
            r.game.policies@ == config.initial_strategies@,
            r.game.history@.len() == 0,
            r.statistics.attendance_ratios@.len() == 0,
            r.grid_size == config.grid_size,
            r.neighbor_distance == config.neighbor_distance,
            r.temperature == config.temperature,
            r.policy_retention_rate == config.policy_retention_rate,
            r.rounds_per_update == config.rounds_per_update,
            r.num_iterations == config.num_iterations,
            r.start_random == config.start_random,
            forall|k: int| 0 <= k < r.cells().len() ==> (#[trigger] r.cells()[k]).record.len() == 0
                && r.cells()[k].last_prediction is None,
            !config.start_random ==> forall|a: int, b: int|
                0 <= a < config.grid_size && 0 <= b < config.grid_size ==> #[trigger] r.cells()[a
                    * config.grid_size + b].policy == initial_policy(
                    config.initial_strategies@,
                    config.grid_size as int,
                    a,
                    b,
                ),
    {
        let mut rng = seeded(seed);
        let ps = &config.initial_strategies;
        let count = ps.len();
        let side = config.grid_size;
        let n = side * side;
        let mut grid: AgentGrid;
        if config.start_random {
            proof {
                lemma_side_within_square(side as int);
            }
            grid = AgentGrid::filled(side, side, Agent::new(0));
            let mut k: usize = 0;
            while k < n
                invariant
                    n == side * side <= MAX_CELLS,
                    n <= isize::MAX,
                    count > 0,
                    k <= n,
                    grid_rows(grid) == side,
                    grid_cols(grid) == side,
                    grid_cells(grid).len() == n,
                    forall|m: int| 0 <= m < n ==> (#[trigger] grid_cells(grid)[m]).policy < count
                        && grid_cells(grid)[m].record.len() == 0
                        && grid_cells(grid)[m].last_prediction is None,
                decreases n - k,
            {
                proof {
                    lemma_cell_index(k as int, side as int, side as int);
                }
                let p = draw_below(&mut rng, count as u64) as usize;
                grid.set(k / side, k % side, Agent::new(p));
                k = k + 1;
            }
        } else {
            let mut base: usize = 0;
            let mut i: usize = 0;
            let mut found = false;
            while i < count
                invariant
                    i <= count == ps@.len(),
                    found ==> base < count && ps@[base as int] is NeverGo && base == first_never_go(ps@),
                    !found ==> base == 0 && forall|m: int| 0 <= m < i ==> !(ps@[m] is NeverGo),
                decreases count - i,
            {
                proof {
                    lemma_first_never_go(ps@);
                    lemma_first_never_go(ps@.subrange(0, i as int + 1));
                }
                if !found {
                    if let Policy::NeverGo = &ps[i] {
                        base = i;
                        found = true;
                    }
                }
                i = i + 1;
            }
            proof {
                lemma_first_never_go(ps@);
                if !found && first_never_go(ps@) >= 0 {
                    assert(ps@[first_never_go(ps@)] is NeverGo);
                }
                if found && first_never_go(ps@) != base {
                    assert(ps@[first_never_go(ps@)] is NeverGo);
                }
            }
            assert(base == base_index(ps@));
            let mut others: Vec<usize> = Vec::new();
            let mut i: usize = 0;
            while i < count
                invariant
                    i <= count == ps@.len(),
                    base < count,
                    others@ == other_indices(ps@.subrange(0, i as int), ps@[base as int]),
                decreases count - i,
            {
                assert(ps@.subrange(0, i as int + 1).drop_last() =~= ps@.subrange(0, i as int));
                if !ps[i].is_same_policy(&ps[base]) {
                    others.push(i);
                }
                i = i + 1;
            }
            assert(ps@.subrange(0, count as int) =~= ps@);
            proof {
                lemma_other_indices(ps@, ps@[base as int]);
            }
            proof {
                lemma_side_within_square(side as int);
            }
            grid = AgentGrid::filled(side, side, Agent::new(base));
            let ghost cells0 = grid_cells(grid);
            assert(cells0.len() == side * side);
            let m = others.len();
            if m > 0 && side > 0 {
                assert((side - 1) * side + side - 1 < side * side && (side - 1) * side >= 0)
                    by (nonlinear_arith)
                    requires
                        side > 0,
                ;
                grid.set(0, 0, Agent::new(others[0]));
                if side > 1 {
                    grid.set(0, side - 1, Agent::new(others[1 % m]));
                    grid.set(side - 1, 0, Agent::new(others[2 % m]));
                    grid.set(side - 1, side - 1, Agent::new(others[3 % m]));
                }
            }
            proof {
                let cells = grid_cells(grid);
                assert(cells.len() == side * side);
                assert forall|k: int| 0 <= k < cells.len() implies cells[k] == cells0[k] || (m > 0 && (
                k == 0 || k == side - 1 || k == (side - 1) * side || k == (side - 1) * side + side - 1)) by {}
                assert forall|k: int| 0 <= k < cells.len() implies #[trigger] cells[k].policy < count by {
                    if cells[k] != cells0[k] {
                        assert(m > 0);
                    }
                }
                assert forall|a: int, b: int| 0 <= a < side && 0 <= b < side implies #[trigger] cells[a
                    * side + b].policy == initial_policy(ps@, side as int, a, b) by {
                    assert(0 <= a * side + b < side * side) by (nonlinear_arith)
                        requires
                            0 <= a < side,
                            0 <= b < side,
                    ;
                    if side > 1 {
                        assert(a * side + b == 0 ==> a == 0 && b == 0) by (nonlinear_arith)
                            requires
                                0 <= a < side,
                                0 <= b < side,
                        ;
                        assert(a * side + b == side - 1 ==> a == 0 && b == side - 1) by (nonlinear_arith)
                            requires
                                0 <= a < side,
                                0 <= b < side,
                        ;
                        assert(a * side + b == (side - 1) * side ==> a == side - 1 && b == 0)
                            by (nonlinear_arith)
                            requires
                                0 <= a < side,
                                0 <= b < side,
                        ;
                        assert(a * side + b == (side - 1) * side + side - 1 ==> a == side - 1 && b
                            == side - 1) by (nonlinear_arith)
                            requires
                                0 <= a < side,
                                0 <= b < side,
                        ;
                    } else {
                        assert(a == 0 && b == 0);
                    }
                }
                assert forall|k: int| 0 <= k < cells.len() implies (#[trigger] cells[k]).policy
                    < count && cells[k].record.len() == 0 && cells[k].last_prediction is None by {}
            }
        }
        let game = Game::new(grid, config.initial_strategies);
        Simulation {
            game,
            name: config.name,
            description: config.description,
            grid_size: config.grid_size,
            neighbor_distance: config.neighbor_distance,
            temperature: config.temperature,
            policy_retention_rate: config.policy_retention_rate,
            num_iterations: config.num_iterations,
            rounds_per_update: config.rounds_per_update,
            start_random: config.start_random,
            statistics: Statistics { attendance_ratios: Vec::new(), policy_counts: Vec::new() },
            rng,
        }
    }

    /// The settings that the rounds and adaptations leave alone.
    pub open spec fn same_settings(&self, other: Simulation) -> bool {
        &&& other.grid_size == self.grid_size
        &&& other.neighbor_distance == self.neighbor_distance
        &&& other.temperature == self.temperature
        &&& other.policy_retention_rate == self.policy_retention_rate
        &&& other.num_iterations == self.num_iterations
        &&& other.rounds_per_update == self.rounds_per_update
        &&& other.start_random == self.start_random
        &&& other.game.policies@.len() == self.game.policies@.len()
    }

    /// Plays `rounds_per_update` rounds: no agent changes policy, and every
    /// agent's record grows by exactly `rounds_per_update` scores.
    pub fn run_rounds(&mut self)
        requires
            old(self).well_formed(),
        ensures
            final(self).well_formed(),
            old(self).same_settings(*final(self)),
            final(self).cells().len() == old(self).cells().len(),
            final(self).game.history@.len() == old(self).game.history@.len()
                + old(self).rounds_per_update,
            final(self).game.history@.subrange(0, old(self).game.history@.len() as int)
                == old(self).game.history@,
            final(self).statistics.attendance_ratios@ == old(self).statistics.attendance_ratios@
                + final(self).game.history@.subrange(
                old(self).game.history@.len() as int,
                final(self).game.history@.len() as int,
            ),
            forall|k: int|
                0 <= k < final(self).cells().len() ==> (#[trigger] final(self).cells()[k]).policy
                    == old(self).cells()[k].policy && final(self).cells()[k].record.len()
                    == old(self).cells()[k].record.len() + old(self).rounds_per_update,
    {
        let ghost cells0 = self.cells();
        let mut r: usize = 0;
        while r < self.rounds_per_update
            invariant
                self.well_formed(),
                old(self).same_settings(*self),
                r <= self.rounds_per_update,
                self.cells().len() == cells0.len(),
                cells0 == old(self).cells(),
                self.game.history@.len() == old(self).game.history@.len() + r,
                self.game.history@.subrange(0, old(self).game.history@.len() as int)
                    == old(self).game.history@,
                self.statistics.attendance_ratios@ == old(self).statistics.attendance_ratios@
                    + self.game.history@.subrange(
                    old(self).game.history@.len() as int,
                    self.game.history@.len() as int,
                ),
                forall|k: int|
                    0 <= k < self.cells().len() ==> (#[trigger] self.cells()[k]).policy == cells0[k].policy
                        && self.cells()[k].record.len() == cells0[k].record.len() + r,
            decreases self.rounds_per_update - r,
        {
            let ghost before = self.cells();
            let ghost hist_before = self.game.history@;
            let res = self.game.run(&mut self.rng);
            proof {
                crate::game::lemma_count_going_bound(predictions_of(self.cells()));
                assert forall|k: int| 0 <= k < self.cells().len() implies (#[trigger] self.cells()[k]).policy
                    == cells0[k].policy && self.cells()[k].record.len() == cells0[k].record.len() + r
                    + 1 by {
                    assert(self.cells()[k] == crate::game::settled(
                        before[k],
                        predictions_of(self.cells())[k],
                        crate::game::attendance_ratio(
                            res.total_attendance as nat,
                            res.total_agents as nat,
                        ) as u64,
                    ));
                }
            }
            let ratio = res.attendance_ratio();
            self.statistics.attendance_ratios.push(ratio);
            let counts = count_policies(&self.game.grid, self.game.policies.len());
            self.statistics.policy_counts.push(counts);
            proof {
                let h0 = old(self).game.history@.len() as int;
                let h = self.game.history@;
                assert(h == hist_before.push(ratio));
                assert(h.subrange(0, h0) =~= hist_before.subrange(0, h0));
                assert(h.subrange(h0, h.len() as int) =~= hist_before.subrange(
                    h0,
                    hist_before.len() as int,
                ).push(ratio));
                assert(self.statistics.attendance_ratios@ =~= old(self).statistics.attendance_ratios@
                    + h.subrange(h0, h.len() as int));
            }
            proof {
                let st = self.statistics.attendance_ratios@;
                assert forall|i: int| 0 <= i < st.len() implies st[i] <= SCALE by {
                    if i < st.len() - 1 {
                        assert(st[i] == st.drop_last()[i]);
                    }
                }
            }
            r = r + 1;
        }
    }

    /// Lets every agent adapt, all from the grid as it stood before the pass: the
    /// new grid is written to a fresh buffer while the old one is only read. Every
    /// record starts afresh; the last predictions stay.
    pub fn adapt_strategies(&mut self)
        requires
            old(self).well_formed(),
        ensures
            final(self).well_formed(),
            old(self).same_settings(*final(self)),
            final(self).game.history == old(self).game.history,
            final(self).game.policies == old(self).game.policies,
            final(self).cells().len() == old(self).cells().len(),
            forall|k: int|
                0 <= k < final(self).cells().len() ==> (#[trigger] final(self).cells()[k]).record.len()
                    == 0 && final(self).cells()[k].last_prediction == old(self).cells()[k].last_prediction
                    && cell_adapted(
                    old(self).cells(),
                    old(self).grid_size as int,
                    old(self).neighbor_distance as int,
                    old(self).temperature,
                    old(self).policy_retention_rate,
                    k / (old(self).grid_size as int),
                    k % (old(self).grid_size as int),
                    final(self).cells()[k].policy,
                ),
    {
        let side = self.grid_size;
        let d = self.neighbor_distance;
        let temperature = self.temperature;
        let rate = self.policy_retention_rate;
        let n = side * side;
        let ghost cells0 = self.cells();
        let ghost count = self.game.policies@.len();
        proof {
            lemma_side_within_square(side as int);
        }
        let mut next = AgentGrid::filled(side, side, Agent::new(0));
        let mut k: usize = 0;
        while k < n
            invariant
                n == side * side <= MAX_CELLS,
                n <= isize::MAX,
                side == self.grid_size,
                d == self.neighbor_distance,
                temperature == self.temperature,
                rate == self.policy_retention_rate,
                rate <= SCALE,
                self.game == old(self).game,
                self.game.well_formed(),
                grid_rows(self.game.grid) == side,
                grid_cols(self.game.grid) == side,
                cells0 == self.cells(),
                count == self.game.policies@.len(),
                old(self).same_settings(*self),
                self.statistics == old(self).statistics,
                grid_rows(next) == side,
                grid_cols(next) == side,
                grid_cells(next).len() == n,
                k <= n,
                forall|m: int|
                    0 <= m < k ==> (#[trigger] grid_cells(next)[m]).record.len() == 0
                        && grid_cells(next)[m].last_prediction == cells0[m].last_prediction
                        && grid_cells(next)[m].policy < count && cell_adapted(
                        cells0,
                        side as int,
                        d as int,
                        temperature,
                        rate,
                        m / (side as int),
                        m % (side as int),
                        grid_cells(next)[m].policy,
                    ),
            decreases n - k,
        {
            proof {
                lemma_cell_index(k as int, side as int, side as int);
            }
            let a = k / side;
            let b = k % side;
            let ns = gather_neighbors(&self.game.grid, side, d, a, b);
            proof {
                assert(ns@.len() * SCALE <= u64::MAX) by (nonlinear_arith)
                    requires
                        ns@.len() <= side * side,
                        side * side <= MAX_CELLS,
                ;
                lemma_neighborhood_has_self(cells0, side as int, d as int, a as int, b as int);
                lemma_neighbors_among_policies(
                    cells0,
                    side as int,
                    d as int,
                    a as int,
                    b as int,
                    (side * side) as nat,
                    count,
                );
            }
            assert(a * side + b == k);
            let mut agent = self.game.grid.get(a, b).duplicate();
            let ghost start = agent;
            agent.adapt_strategy(ns.as_slice(), temperature, rate, &mut self.rng);
            proof {
                if agent != start {
                    let c = choose|c: int| valid_choice(ns@, c, temperature) && agent@ == (AgentView {
                        policy: #[trigger] ns@[c].policy,
                        record: Seq::empty(),
                        last_prediction: start.last_prediction,
                    });
                    assert(agent.policy < count);
                }
            }
            agent.clear_performance_history();
            next.set(a, b, agent);
            k = k + 1;
        }
        self.game.set_grid(next);
    }

    /// `played` is this simulation's grid after a batch of rounds (same policies,
    /// `rounds_per_update` more scores each), and `after` holds policies that the
    /// adaptation pass may give it.
    pub open spec fn played_then_adapted(&self, played: Seq<AgentView>, after: Seq<AgentView>) -> bool {
        &&& played.len() == self.cells().len()
        &&& after.len() == played.len()
        &&& forall|k: int|
            0 <= k < played.len() ==> (#[trigger] played[k]).policy == self.cells()[k].policy
                && played[k].record.len() == self.cells()[k].record.len() + self.rounds_per_update
        &&& forall|k: int|
            0 <= k < played.len() ==> #[trigger] cell_adapted(
                played,
                self.grid_size as int,
                self.neighbor_distance as int,
                self.temperature,
                self.policy_retention_rate,
                k / (self.grid_size as int),
                k % (self.grid_size as int),
                after[k].policy,
            )
    }

    /// One iteration: a batch of rounds, then the adaptation pass; hands out the
    /// resulting frame.
    pub fn run_iteration(&mut self) -> (frame: Frame)
        requires
            old(self).well_formed(),
        ensures
            final(self).well_formed(),
            old(self).same_settings(*final(self)),
            final(self).cells().len() == old(self).cells().len(),
            final(self).game.history@.len() == old(self).game.history@.len()
                + old(self).rounds_per_update,
            final(self).game.history@.subrange(0, old(self).game.history@.len() as int)
                == old(self).game.history@,
            forall|k: int| 0 <= k < final(self).cells().len() ==> (#[trigger] final(self).cells()[k]).record.len() == 0,
            exists|played: Seq<AgentView>|
                #[trigger] old(self).played_then_adapted(played, final(self).cells()),
            old(self).policy_retention_rate == SCALE ==> forall|k: int|
                0 <= k < final(self).cells().len() ==> (#[trigger] final(self).cells()[k]).policy
                    == old(self).cells()[k].policy,
            frame.policy_ids@ == Seq::new(
                final(self).cells().len(),
                |k: int| final(self).cells()[k].policy,
            ),
            frame.predictions@ == predictions_of(final(self).cells()),
            frame.attendance_ratio == (if final(self).game.history@.len() == 0 {
                0
            } else {
                final(self).game.history@.last()
            }),
    {
        self.run_rounds();
        let ghost mid = self.cells();
        self.adapt_strategies();
        proof {
            assert forall|k: int| 0 <= k < mid.len() implies #[trigger] cell_adapted(
                mid,
                old(self).grid_size as int,
                old(self).neighbor_distance as int,
                old(self).temperature,
                old(self).policy_retention_rate,
                k / (old(self).grid_size as int),
                k % (old(self).grid_size as int),
                self.cells()[k].policy,
            ) by {
                assert(self.cells()[k].record.len() == 0);
            }
            assert(mid.len() == old(self).cells().len());
            assert(old(self).played_then_adapted(mid, self.cells()));
        }
        proof {
            if self.policy_retention_rate == SCALE {
                assert forall|k: int| 0 <= k < self.cells().len() implies (#[trigger] self.cells()[k]).policy
                    == old(self).cells()[k].policy by {
                    assert(mid[k].policy == old(self).cells()[k].policy);
                    lemma_cell_index(k, self.grid_size as int, self.grid_size as int);
                    assert((k / (self.grid_size as int)) * (self.grid_size as int) + k % (self.grid_size as int) == k);
                }
            }
        }
        self.frame()
    }

    /// The current frame.
    pub fn frame(&self) -> (frame: Frame)
        requires
            self.well_formed(),
        ensures
            frame.policy_ids@ == Seq::new(self.cells().len(), |k: int| self.cells()[k].policy),
            frame.predictions@ == predictions_of(self.cells()),
            frame.attendance_ratio == (if self.game.history@.len() == 0 {
                0
            } else {
                self.game.history@.last()
            }),
    {
        let side = self.grid_size;
        let n = side * side;
        let mut ids: Vec<usize> = Vec::new();
        let mut preds: Vec<u64> = Vec::new();
        let mut k: usize = 0;
        while k < n
            invariant
                n == side * side == self.cells().len(),
                grid_rows(self.game.grid) == side,
                grid_cols(self.game.grid) == side,
                k <= n,
                ids@ == Seq::new(k as nat, |m: int| self.cells()[m].policy),
                preds@ == predictions_of(self.cells()).subrange(0, k as int),
            decreases n - k,
        {
            proof {
                lemma_cell_index(k as int, side as int, side as int);
            }
            let agent = self.game.grid.get(k / side, k % side);
            ids.push(agent.policy);
            let p = match agent.last_prediction {
                Some(p) => p,
                None => 0,
            };
            preds.push(p);
            k = k + 1;
            assert(ids@ =~= Seq::new(k as nat, |m: int| self.cells()[m].policy));
            assert(preds@ =~= predictions_of(self.cells()).subrange(0, k as int));
        }
        assert(preds@ =~= predictions_of(self.cells()));
        let h = self.game.history.len();
        let attendance_ratio = if h == 0 { 0 } else { self.game.history[h - 1] };
        Frame { policy_ids: ids, predictions: preds, attendance_ratio }
    }

    /// Runs `num_iterations` iterations and hands out their frames in order.
    pub fn run(&mut self) -> (frames: Vec<Frame>)
        requires
            old(self).well_formed(),
        ensures
            final(self).well_formed(),
            old(self).same_settings(*final(self)),
            frames@.len() == old(self).num_iterations,
            final(self).game.history@.len() == old(self).game.history@.len()
                + old(self).num_iterations * old(self).rounds_per_update,
            frames@.len() > 0 ==> frames@.last().policy_ids@ == Seq::new(
                final(self).cells().len(),
                |k: int| final(self).cells()[k].policy,
            ) && frames@.last().predictions@ == predictions_of(final(self).cells()),
            final(self).cells().len() == old(self).cells().len(),
            old(self).policy_retention_rate == SCALE ==> forall|k: int|
                0 <= k < final(self).cells().len() ==> (#[trigger] final(self).cells()[k]).policy
                    == old(self).cells()[k].policy,
    {
        let mut frames: Vec<Frame> = Vec::new();
        let mut i: usize = 0;
        while i < self.num_iterations
            invariant
                self.well_formed(),
                old(self).same_settings(*self),
                i <= self.num_iterations,
                frames@.len() == i,
                self.game.history@.len() == old(self).game.history@.len() + i
                    * self.rounds_per_update,
                i > 0 ==> frames@.last().policy_ids@ == Seq::new(
                    self.cells().len(),
                    |k: int| self.cells()[k].policy,
                ) && frames@.last().predictions@ == predictions_of(self.cells()),
                self.cells().len() == old(self).cells().len(),
                old(self).policy_retention_rate == SCALE ==> forall|k: int|
                    0 <= k < self.cells().len() ==> (#[trigger] self.cells()[k]).policy
                        == old(self).cells()[k].policy,
            decreases self.num_iterations - i,
        {
            let ghost before = self.cells();
            frames.push(self.run_iteration());
            proof {
                assert((i + 1) * self.rounds_per_update == i * self.rounds_per_update
                    + self.rounds_per_update) by (nonlinear_arith);
            }
            proof {
                if old(self).policy_retention_rate == SCALE {
                    assert forall|k: int| 0 <= k < self.cells().len() implies (#[trigger] self.cells()[k]).policy
                        == old(self).cells()[k].policy by {
                        assert(before[k].policy == old(self).cells()[k].policy);
                    }
                }
            }
            i = i + 1;
        }
        frames
    }

    pub fn get_statistics(&self) -> (r: &Statistics)
        ensures
            *r == self.statistics,
    {
        &self.statistics
    }
}

/// At temperature 0 and retention rate 0, a cell whose neighbourhood holds one
/// neighbour strictly better than every other adopts that neighbour's policy:
/// no draw can lead elsewhere.
pub proof fn greedy_adopts_unique_best(
    cells: Seq<AgentView>,
    side: int,
    d: int,
    i: int,
    j: int,
    best: int,
    p: usize,
)
    requires
        cell_adapted(cells, side, d, 0, 0, i, j, p),
        0 <= best < neighborhood(cells, side, d, i, j).len(),
        forall|c: int|
            0 <= c < neighborhood(cells, side, d, i, j).len() && c != best ==> (#[trigger] neighborhood(
                cells,
                side,
                d,
                i,
                j,
            )[c]).performance < neighborhood(cells, side, d, i, j)[best].performance,
    ensures
        p == neighborhood(cells, side, d, i, j)[best].policy,
{
    let ns = neighborhood(cells, side, d, i, j);
    let c = choose|c: int| valid_choice(ns, c, 0) && p == #[trigger] ns[c].policy;
    assert(crate::agent::is_best(ns, c));
    if c != best {
        assert(ns[best].performance <= ns[c].performance);
    }
}

/// With retention rate 1 a cell keeps its policy through adaptation.
pub proof fn full_retention_keeps_policy(
    cells: Seq<AgentView>,
    side: int,
    d: int,
    temperature: u64,
    i: int,
    j: int,
    p: usize,
)
    requires
        cell_adapted(cells, side, d, temperature, SCALE, i, j, p),
    ensures
        p == cells[i * side + j].policy,
{
}

/// Cells updated one at a time in `order`, each written into a buffer (which
/// starts as `start`) with a value that `step` computes from the snapshot alone.
pub open spec fn update_in_order(
    snapshot: Seq<AgentView>,
    start: Seq<AgentView>,
    order: Seq<int>,
    step: spec_fn(Seq<AgentView>, int) -> AgentView,
) -> Seq<AgentView>
    decreases order.len(),
{
    if order.len() == 0 {
        start
    } else {
        let k = order.last();
        let buf = update_in_order(snapshot, start, order.drop_last(), step);
        if 0 <= k < buf.len() {
            buf.update(k, step(snapshot, k))
        } else {
            buf
        }
    }
}

proof fn lemma_update_in_order(
    snapshot: Seq<AgentView>,
    start: Seq<AgentView>,
    order: Seq<int>,
    step: spec_fn(Seq<AgentView>, int) -> AgentView,
)
    ensures
        update_in_order(snapshot, start, order, step).len() == start.len(),
        forall|k: int|
            0 <= k < start.len() ==> #[trigger] update_in_order(snapshot, start, order, step)[k] == if order.contains(
                k,
            ) {
                step(snapshot, k)
            } else {
                start[k]
            },
    decreases order.len(),
{
    if order.len() > 0 {
        let prev = order.drop_last();
        lemma_update_in_order(snapshot, start, prev, step);
        assert forall|k: int| 0 <= k < start.len() implies #[trigger] update_in_order(
            snapshot,
            start,
            order,
            step,
        )[k] == if order.contains(k) {
            step(snapshot, k)
        } else {
            start[k]
        } by {
            if order.contains(k) && k != order.last() {
                let t = choose|t: int| 0 <= t < order.len() && order[t] == k;
                assert(prev[t] == k);
            }
            if prev.contains(k) {
                let t = choose|t: int| 0 <= t < prev.len() && prev[t] == k;
                assert(order[t] == k);
            }
            if k == order.last() {
                assert(order[order.len() - 1] == k);
            }
        }
    }
}

/// Synchronous update: when every new value is computed from the snapshot, the
/// order in which the cells are processed makes no difference. In particular a
/// cell `b` comes out the same whether a cell `a` is processed before or after it.
pub proof fn adaptation_order_independent(
    snapshot: Seq<AgentView>,
    start: Seq<AgentView>,
    first: Seq<int>,
    second: Seq<int>,
    step: spec_fn(Seq<AgentView>, int) -> AgentView,
)
    requires
        forall|k: int| 0 <= k < start.len() ==> (first.contains(k) <==> second.contains(k)),
    ensures
        update_in_order(snapshot, start, first, step) == update_in_order(snapshot, start, second, step),
{
    lemma_update_in_order(snapshot, start, first, step);
    lemma_update_in_order(snapshot, start, second, step);
    assert(update_in_order(snapshot, start, first, step) =~= update_in_order(snapshot, start, second, step));
}

} // verus!
