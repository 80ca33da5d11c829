//! An agent: the policy it follows, its scores since the last adaptation, and
//! its last prediction.

use vstd::prelude::*;
use rand::rngs::StdRng;
use crate::random::{draw_below, draw_weighted};
use crate::ratio::{SCALE, sum, mean, abs_diff, lemma_sum_bound};
use crate::policy::Policy;

verus! {

/// `e^-1` in fixed point.
pub const INV_E: u64 = 367879;

/// Top of the goodness score: a perfect record scores `100 * SCALE`.
pub const MAX_PERFORMANCE: u64 = 100000000;

/// Goodness of a record of absolute prediction errors: `(1 - mean error) * 100`,
/// at least 0, and 0 for an empty record.
pub open spec fn performance_of(record: Seq<u64>) -> int {
    if record.len() == 0 {
        0
    } else if mean(record) >= SCALE {
        0
    } else {
        (SCALE - mean(record)) * 100
    }
}

/// `SCALE * e^-q`, each factor of `e^-1` rounded down.
pub open spec fn decay_whole(q: nat) -> nat
    decreases q,
{
    if q == 0 {
        SCALE as nat
    } else {
        decay_whole((q - 1) as nat) * (INV_E as nat) / (SCALE as nat)
    }
}

/// `SCALE * e^(-gap / temperature)`: the factor `e^-1` for each whole temperature
/// in `gap`, and a straight line from 1 to `e^-1` across the remainder.
pub open spec fn decay(gap: nat, temperature: nat) -> nat {
    let q = gap / temperature;
    let f = gap % temperature;
    decay_whole(q) * ((SCALE - f * ((SCALE - INV_E) as nat) / temperature) as nat) / (SCALE as nat)
}

/// A neighbour as the adaptation step sees it.
#[derive(Debug, Clone, Copy, PartialEq, Eq)]
pub struct Neighbor {
    pub policy: usize,
    pub performance: u64,
}

/// The highest performance among the neighbours (0 when there are none).
pub open spec fn top_performance(ns: Seq<Neighbor>) -> int
    decreases ns.len(),
{
    if ns.len() == 0 {
        0
    } else if ns.len() == 1 {
        ns[0].performance as int
    } else {
        let m = top_performance(ns.drop_last());
        if ns.last().performance > m {
            ns.last().performance as int
        } else {
            m
        }
    }
}

pub open spec fn is_best(ns: Seq<Neighbor>, j: int) -> bool {
    forall|i: int| 0 <= i < ns.len() ==> ns[i].performance <= ns[j].performance
}

/// The softmax weight of neighbour `j`: `exp((perf_j - max_perf) / temperature)`.
pub open spec fn softmax_weight(ns: Seq<Neighbor>, j: int, temperature: u64) -> nat {
    decay((top_performance(ns) - ns[j].performance) as nat, temperature as nat)
}

pub open spec fn all_weights_vanish(ns: Seq<Neighbor>, temperature: u64) -> bool {
    forall|i: int| 0 <= i < ns.len() ==> softmax_weight(ns, i, temperature) == 0
}

/// Neighbour `j` may be imitated: at temperature 0 (greedy) it is among the best;
/// otherwise its softmax weight is positive, or every weight vanished and the
/// draw was uniform.
pub open spec fn valid_choice(ns: Seq<Neighbor>, j: int, temperature: u64) -> bool {
    &&& 0 <= j < ns.len()
    &&& temperature == 0 ==> is_best(ns, j)
    &&& temperature > 0 ==> (softmax_weight(ns, j, temperature) > 0 || all_weights_vanish(
        ns,
        temperature,
    ))
}

pub proof fn lemma_top_performance(ns: Seq<Neighbor>)
    requires
        ns.len() > 0,
    ensures
        forall|i: int| 0 <= i < ns.len() ==> ns[i].performance <= top_performance(ns),
        exists|i: int| 0 <= i < ns.len() && ns[i].performance == top_performance(ns),
    decreases ns.len(),
{
    if ns.len() > 1 {
        lemma_top_performance(ns.drop_last());
        let m = top_performance(ns.drop_last());
        let i0 = choose|i: int| 0 <= i < ns.drop_last().len() && ns.drop_last()[i].performance == m;
        assert(ns[i0].performance == m);
        assert forall|i: int| 0 <= i < ns.len() implies ns[i].performance <= top_performance(ns) by {
            if i < ns.len() - 1 {
                assert(ns[i] == ns.drop_last()[i]);
            }
        }
    } else {
        assert(ns[0].performance == top_performance(ns));
    }
}

proof fn lemma_decay_whole_bound(q: nat)
    ensures
        decay_whole(q) <= SCALE,
    decreases q,
{
    if q > 0 {
        lemma_decay_whole_bound((q - 1) as nat);
        let d = decay_whole((q - 1) as nat);
        assert(d * (INV_E as nat) / (SCALE as nat) <= SCALE) by (nonlinear_arith)
            requires
                d <= SCALE,
        ;
    }
}

proof fn lemma_decay_whole_stays_zero(a: nat, b: nat)
    requires
        a <= b,
        decay_whole(a) == 0,
    ensures
        decay_whole(b) == 0,
    decreases b - a,
{
    if a < b {
        lemma_decay_whole_stays_zero(a, (b - 1) as nat);
        assert(0 * (INV_E as nat) / (SCALE as nat) == 0);
    }
}

/// The softmax weight of a gap, in fixed point.
pub fn decay_weight(gap: u64, temperature: u64) -> (r: u64)
    requires
        temperature > 0,
    ensures
        r == decay(gap as nat, temperature as nat),
        r <= SCALE,
        gap == 0 ==> r == SCALE,
{
    let q = gap / temperature;
    let f = gap % temperature;
    let mut w: u64 = SCALE;
    let mut i: u64 = 0;
    while i < q && w > 0
        invariant
            i <= q,
            w == decay_whole(i as nat),
            w <= SCALE,
        decreases q - i,
    {
        proof {
            lemma_decay_whole_bound((i + 1) as nat);
        }
        assert(w * INV_E <= SCALE * SCALE) by (nonlinear_arith)
            requires
                w <= SCALE,
        ;
        w = w * INV_E / SCALE;
        i = i + 1;
    }
    if i < q {
        proof {
            lemma_decay_whole_stays_zero(i as nat, q as nat);
        }
    }
    assert(decay_whole(q as nat) == w);
    let wide = (f as u128) * ((SCALE - INV_E) as u128) / (temperature as u128);
    assert(wide <= SCALE - INV_E) by (nonlinear_arith)
        requires
            wide == (f as int) * ((SCALE - INV_E) as int) / (temperature as int),
            f < temperature,
    ;
    let part = wide as u64;
    let factor = SCALE - part;
    assert(w * factor <= SCALE * SCALE) by (nonlinear_arith)
        requires
            w <= SCALE,
            factor <= SCALE,
    ;
    let r = w * factor / SCALE;
    assert(r <= SCALE) by (nonlinear_arith)
        requires
            r == (w as int) * (factor as int) / (SCALE as int),
            w <= SCALE,
            factor <= SCALE,
    ;
    if gap == 0 {
        assert(q == 0 && f == 0) by (nonlinear_arith)
            requires
                gap == 0,
                q == gap / temperature,
                f == gap % temperature,
                temperature > 0,
        ;
        assert(part == 0);
        assert(r == SCALE) by (nonlinear_arith)
            requires
                w == SCALE,
                factor == SCALE,
                r == (w as int) * (factor as int) / (SCALE as int),
        ;
    }
    assert(q == (gap as nat) / (temperature as nat));
    assert(f == (gap as nat) % (temperature as nat));
    assert(part == (f as nat) * ((SCALE - INV_E) as nat) / (temperature as nat));
    r
}

/// A cell of the grid.
#[derive(Debug, Clone)]
pub struct Agent {
    /// Index of the policy in the game's policy table; agents that share an index
    /// share the policy.
    pub policy: usize,
    /// Absolute prediction errors since the last adaptation.
    pub performance_history: Vec<u64>,
    pub last_prediction: Option<u64>,
}

/// What an agent holds, as plain values.
pub struct AgentView {
    pub policy: usize,
    pub record: Seq<u64>,
    pub last_prediction: Option<u64>,
}

impl View for Agent {
    type V = AgentView;

    open spec fn view(&self) -> AgentView {
        AgentView {
            policy: self.policy,
            record: self.performance_history@,
            last_prediction: self.last_prediction,
        }
    }
}

impl Agent {
    pub fn new(policy: usize) -> (r: Agent)
        ensures
            r@ == (AgentView { policy, record: Seq::empty(), last_prediction: None }),
    {
        Agent { policy, performance_history: Vec::new(), last_prediction: None }
    }

    /// A copy of this agent.
    pub fn duplicate(&self) -> (r: Agent)
        ensures
            r@ == self@,
    {
        let mut record: Vec<u64> = Vec::new();
        let mut i: usize = 0;
        while i < self.performance_history.len()
            invariant
                i <= self.performance_history@.len(),
                record@ == self.performance_history@.subrange(0, i as int),
            decreases self.performance_history@.len() - i,
        {
            record.push(self.performance_history[i]);
            i = i + 1;
            assert(record@ =~= self.performance_history@.subrange(0, i as int));
        }
        assert(record@ =~= self.performance_history@);
        Agent { policy: self.policy, performance_history: record, last_prediction: self.last_prediction }
    }

    pub fn current_policy(&self) -> (r: usize)
        ensures
            r == self.policy,
    {
        self.policy
    }

    /// Asks `policy` (this agent's policy) for a prediction and records it.
    pub fn decide(&mut self, policy: &mut Policy, history: &[u64], rng: &mut StdRng) -> (r: u64)
        requires
            old(policy).well_formed(),
            crate::ratio::all_ratios(history@),
        ensures
            final(self)@ == (AgentView { last_prediction: Some(r), ..old(self)@ }),
            final(policy).well_formed(),
            final(policy).allows(history@, r),
            final(policy).covers(history@),
            old(policy).evolves_to(*final(policy)),
            old(policy).covers(history@) ==> *final(policy) == *old(policy),
    {
        let prediction = policy.decide(history, rng);
        self.last_prediction = Some(prediction);
        prediction
    }

    /// Scores the last prediction against the round's realized ratio.
    pub fn update_performance(&mut self, actual_attendance_ratio: u64)
        requires
            old(self).last_prediction is Some,
        ensures
            final(self)@ == (AgentView {
                record: old(self)@.record.push(
                    abs_diff(old(self).last_prediction->0, actual_attendance_ratio),
                ),
                ..old(self)@
            }),
    {
        let prediction = match self.last_prediction {
            Some(p) => p,
            None => 0,
        };
        let error = if prediction >= actual_attendance_ratio {
            prediction - actual_attendance_ratio
        } else {
            actual_attendance_ratio - prediction
        };
        self.performance_history.push(error);
    }

    /// Goodness over the record, from 0 to `MAX_PERFORMANCE`.
    pub fn performance(&self) -> (r: u64)
        ensures
            r == performance_of(self.performance_history@),
            r <= MAX_PERFORMANCE,
    {
        let n = self.performance_history.len();
        if n == 0 {
            return 0;
        }
        proof {
            assert(self.performance_history@.subrange(0, n as int) =~= self.performance_history@);
        }
        let avg = crate::ratio::mean_range(self.performance_history.as_slice(), 0, n);
        if avg >= SCALE {
            0
        } else {
            (SCALE - avg) * 100
        }
    }

    pub fn clear_performance_history(&mut self)
        ensures
            final(self)@ == (AgentView { record: Seq::empty(), ..old(self)@ }),
    {
        self.performance_history = Vec::new();
    }

    /// With probability `policy_retention_rate` keeps everything; otherwise
    /// imitates a neighbour chosen by `choose_neighbor` and starts a fresh record.
    /// The retention draw is uniform in `[0, SCALE)`; `adapt_with_draw` says what
    /// follows from each value of it.
    pub fn adapt_strategy(
        &mut self,
        neighbors: &[Neighbor],
        temperature: u64,
        policy_retention_rate: u64,
        rng: &mut StdRng,
    )
        requires
            neighbors@.len() * SCALE <= u64::MAX,
        ensures
            neighbors@.len() == 0 ==> *final(self) == *old(self),
            neighbors@.len() > 0 ==> {
                ||| (*final(self) == *old(self) && policy_retention_rate > 0)
                ||| (policy_retention_rate < SCALE && exists|j: int|
                    valid_choice(neighbors@, j, temperature) && final(self)@ == (AgentView {
                        policy: #[trigger] neighbors@[j].policy,
                        record: Seq::empty(),
                        last_prediction: old(self).last_prediction,
                    }))
            },
    {
        if neighbors.len() == 0 {
            return;
        }
        let draw = draw_below(rng, SCALE);
        self.adapt_with_draw(neighbors, temperature, policy_retention_rate, draw, rng);
    }

    /// Adaptation given the retention draw: a draw below `policy_retention_rate`
    /// keeps everything; any other draw, with at least one neighbour, adopts the
    /// policy of a neighbour that `valid_choice` allows and starts a fresh record.
    pub fn adapt_with_draw(
        &mut self,
        neighbors: &[Neighbor],
        temperature: u64,
        policy_retention_rate: u64,
        draw: u64,
        rng: &mut StdRng,
    )
        requires
            neighbors@.len() * SCALE <= u64::MAX,
        ensures
            (neighbors@.len() == 0 || draw < policy_retention_rate) ==> *final(self) == *old(self),
            (neighbors@.len() > 0 && draw >= policy_retention_rate) ==> exists|j: int|
                valid_choice(neighbors@, j, temperature) && final(self)@ == (AgentView {
                    policy: #[trigger] neighbors@[j].policy,
                    record: Seq::empty(),
                    last_prediction: old(self).last_prediction,
                }),
    {
        if neighbors.len() == 0 || draw < policy_retention_rate {
            return;
        }
        let j = choose_neighbor(neighbors, temperature, rng);
        self.policy = neighbors[j].policy;
        self.performance_history = Vec::new();
    }
}

proof fn lemma_sum_zero(s: Seq<u64>)
    requires
        sum(s) == 0,
    ensures
        forall|i: int| 0 <= i < s.len() ==> s[i] == 0,
    decreases s.len(),
{
    if s.len() > 0 {
        lemma_sum_bound(s.drop_last(), u64::MAX);
        lemma_sum_zero(s.drop_last());
        assert forall|i: int| 0 <= i < s.len() implies s[i] == 0 by {
            if i < s.len() - 1 {
                assert(s[i] == s.drop_last()[i]);
            }
        }
    }
}

/// Picks the neighbour to imitate: at temperature 0 uniformly among those tied for
/// the best performance; otherwise by softmax over performance, falling back to a
/// uniform draw when every weight vanishes.
pub fn choose_neighbor(neighbors: &[Neighbor], temperature: u64, rng: &mut StdRng) -> (j: usize)
    requires
        neighbors@.len() > 0,
        neighbors@.len() * SCALE <= u64::MAX,
    ensures
        valid_choice(neighbors@, j as int, temperature),
{
    let ghost ns = neighbors@;
    let n = neighbors.len();
    let mut top: u64 = neighbors[0].performance;
    let mut i: usize = 1;
    while i < n
        invariant
            1 <= i <= n == ns.len(),
            ns == neighbors@,
            top == top_performance(ns.subrange(0, i as int)),
        decreases n - i,
    {
        assert(ns.subrange(0, i as int + 1).drop_last() =~= ns.subrange(0, i as int));
        if neighbors[i].performance > top {
            top = neighbors[i].performance;
        }
        i = i + 1;
    }
    assert(ns.subrange(0, n as int) =~= ns);
    proof {
        lemma_top_performance(ns);
    }
    if temperature == 0 {
        let mut best: Vec<usize> = Vec::new();
        let mut k: usize = 0;
        while k < n
            invariant
                k <= n == ns.len(),
                ns == neighbors@,
                top == top_performance(ns),
                forall|b: int| 0 <= b < best@.len() ==> best@[b] < n && ns[best@[b] as int].performance == top,
                forall|m: int| 0 <= m < k && ns[m].performance == top ==> best@.len() > 0,
                best@.len() <= k,
            decreases n - k,
        {
            if neighbors[k].performance == top {
                best.push(k);
            }
            k = k + 1;
        }
        let pick = draw_below(rng, best.len() as u64);
        let j = best[pick as usize];
        assert(is_best(ns, j as int));
        j
    } else {
        let mut weights: Vec<u64> = Vec::new();
        let mut k: usize = 0;
        while k < n
            invariant
                k <= n == ns.len(),
                n * SCALE <= u64::MAX,
                ns == neighbors@,
                temperature > 0,
                top == top_performance(ns),
                forall|m: int| 0 <= m < ns.len() ==> ns[m].performance <= top,
                weights@.len() == k,
                forall|m: int| 0 <= m < k ==> weights@[m] == softmax_weight(ns, m, temperature),
                forall|m: int| 0 <= m < k ==> weights@[m] <= SCALE,
            decreases n - k,
        {
            let w = decay_weight(top - neighbors[k].performance, temperature);
            weights.push(w);
            k = k + 1;
        }
        proof {
            lemma_sum_bound(weights@, SCALE);
        }
        match draw_weighted(rng, &weights) {
            Some(j) => j,
            None => {
                proof {
                    lemma_sum_zero(weights@);
                }
                assert(all_weights_vanish(ns, temperature));
                draw_below(rng, n as u64) as usize
            },
        }
    }
}

} // verus!
