//! Prediction policies: each maps the shared attendance history to a predicted
//! attendance ratio.

use vstd::prelude::*;
use vstd::string::StringExecFns;
use rand::rngs::StdRng;
use crate::random::draw_below;
use crate::power_mean::{GeneralizedMeanPolicy, generalized_mean, lemma_generalized_mean_range};
use crate::game::{GameResult, attendance_ratio};
use crate::ratio::{
    SCALE, sum, mean, all_ratios, last_n, floor_sqrt, mean_range, isqrt,
    lemma_mean_bound, lemma_sum_bound, lemma_floor_sqrt_bound,
};

verus! {

/// The amount that `DrunkardPolicy` subtracts and `StupidNerdPolicy` adds (0.05).
pub const NUDGE: u64 = 50000;

/// Weights of the weighted-history policies are drawn below this (2.0).
pub const MAX_WEIGHT: u64 = 2000000;

/// How many weights `SlidingWeightedAveragePolicy` holds.
pub const SLIDING_WINDOW: usize = 5;

pub open spec fn last_value(h: Seq<u64>) -> int {
    if h.len() == 0 {
        0
    } else {
        h.last() as int
    }
}

pub open spec fn day_before_value(h: Seq<u64>) -> int {
    if h.len() >= 2 {
        h[h.len() - 2] as int
    } else {
        last_value(h)
    }
}

pub open spec fn moving_average(h: Seq<u64>, window: int) -> int {
    if window <= 0 {
        0
    } else {
        mean(last_n(h, window))
    }
}

/// Entries at even positions (0, 2, 4, ...).
pub open spec fn even_entries(h: Seq<u64>) -> Seq<u64> {
    Seq::new(((h.len() + 1) / 2) as nat, |i: int| h[2 * i])
}

pub open spec fn complex_formula(h: Seq<u64>) -> int {
    if h.len() < 3 {
        0
    } else {
        let a = h[h.len() - 1] as nat;
        let b = h[h.len() - 2] as nat;
        let c = h[h.len() - 3] as nat;
        ((floor_sqrt((a * a + b * b) / 2) + c) / 2) as int
    }
}

pub open spec fn drunkard_value(h: Seq<u64>) -> int {
    let m = mean(h);
    if m <= NUDGE {
        0
    } else if m - NUDGE >= SCALE {
        SCALE as int
    } else {
        m - NUDGE
    }
}

pub open spec fn stupid_nerd_value(h: Seq<u64>) -> int {
    let m = mean(h);
    if m + NUDGE >= SCALE {
        SCALE as int
    } else {
        m + NUDGE
    }
}

/// `sum_{i < m} h[len - 1 - i] * w[i]`: the most recent entry meets the first weight.
pub open spec fn rev_dot(h: Seq<u64>, w: Seq<u64>, m: nat) -> int
    decreases m,
{
    if m == 0 {
        0
    } else {
        rev_dot(h, w, (m - 1) as nat) + h[h.len() - m] * w[m - 1]
    }
}

pub open spec fn weighted_value(h: Seq<u64>, w: Seq<u64>) -> int {
    if h.len() == 0 {
        0
    } else {
        rev_dot(h, w, h.len()) / (h.len() * SCALE)
    }
}

pub open spec fn sliding_value(h: Seq<u64>, w: Seq<u64>) -> int {
    let m = if h.len() < SLIDING_WINDOW { h.len() } else { SLIDING_WINDOW as nat };
    if m == 0 {
        0
    } else {
        rev_dot(h, w, m) / (m * SCALE)
    }
}

/// Weight of the `k`-th most recent entry: `SCALE * alpha^k`, each factor rounded down.
pub open spec fn ema_weight(alpha: u64, k: nat) -> nat
    decreases k,
{
    if k == 0 {
        SCALE as nat
    } else {
        ema_weight(alpha, (k - 1) as nat) * (alpha as nat) / (SCALE as nat)
    }
}

pub open spec fn ema_num(h: Seq<u64>, alpha: u64, m: nat) -> int
    decreases m,
{
    if m == 0 {
        0
    } else {
        ema_num(h, alpha, (m - 1) as nat) + h[h.len() - m] * ema_weight(alpha, (m - 1) as nat)
    }
}

pub open spec fn ema_den(alpha: u64, m: nat) -> int
    decreases m,
{
    if m == 0 {
        0
    } else {
        ema_den(alpha, (m - 1) as nat) + ema_weight(alpha, (m - 1) as nat)
    }
}

pub open spec fn ema_value(h: Seq<u64>, alpha: u64) -> int {
    if h.len() == 0 {
        0
    } else {
        ema_num(h, alpha, h.len()) / ema_den(alpha, h.len())
    }
}

pub proof fn lemma_rev_dot_bound(h: Seq<u64>, w: Seq<u64>, m: nat, hb: u64, wb: u64)
    requires
        m <= h.len(),
        m <= w.len(),
        forall|i: int| 0 <= i < h.len() ==> h[i] <= hb,
        forall|i: int| 0 <= i < w.len() ==> w[i] <= wb,
    ensures
        0 <= rev_dot(h, w, m) <= m * (hb * wb),
    decreases m,
{
    if m > 0 {
        lemma_rev_dot_bound(h, w, (m - 1) as nat, hb, wb);
        let x = h[h.len() - m];
        let y = w[m - 1];
        assert(0 <= x * y <= hb * wb) by (nonlinear_arith)
            requires
                x <= hb,
                y <= wb,
        ;
        assert((m - 1) * (hb * wb) + hb * wb == m * (hb * wb)) by (nonlinear_arith);
    }
}

/// `rev_dot` over the first `m` weights reads no other weight.
pub proof fn lemma_rev_dot_prefix(h: Seq<u64>, w: Seq<u64>, v: Seq<u64>, m: nat)
    requires
        m <= w.len(),
        m <= v.len(),
        w.subrange(0, m as int) == v.subrange(0, m as int),
    ensures
        rev_dot(h, w, m) == rev_dot(h, v, m),
    decreases m,
{
    if m > 0 {
        assert(w[m - 1] == w.subrange(0, m as int)[m - 1]);
        assert(v[m - 1] == v.subrange(0, m as int)[m - 1]);
        assert(w.subrange(0, m - 1) == w.subrange(0, m as int).subrange(0, m - 1));
        assert(v.subrange(0, m - 1) == v.subrange(0, m as int).subrange(0, m - 1));
        lemma_rev_dot_prefix(h, w, v, (m - 1) as nat);
    }
}

pub proof fn lemma_ema_weight_bound(alpha: u64, k: nat)
    requires
        alpha < SCALE,
    ensures
        ema_weight(alpha, k) <= SCALE,
    decreases k,
{
    if k > 0 {
        lemma_ema_weight_bound(alpha, (k - 1) as nat);
        let e = ema_weight(alpha, (k - 1) as nat);
        assert(e * (alpha as nat) / (SCALE as nat) <= SCALE) by (nonlinear_arith)
            requires
                e <= SCALE,
                alpha < SCALE,
        ;
    }
}

pub proof fn lemma_ema_sums(h: Seq<u64>, alpha: u64, m: nat)
    requires
        alpha < SCALE,
        m <= h.len(),
        all_ratios(h),
    ensures
        0 <= ema_num(h, alpha, m) <= SCALE * ema_den(alpha, m),
        m > 0 ==> ema_den(alpha, m) >= SCALE,
        ema_den(alpha, m) <= m * SCALE,
    decreases m,
{
    if m > 0 {
        lemma_ema_sums(h, alpha, (m - 1) as nat);
        lemma_ema_weight_bound(alpha, (m - 1) as nat);
        let x = h[h.len() - m];
        let e = ema_weight(alpha, (m - 1) as nat);
        assert(0 <= x * e <= SCALE * e) by (nonlinear_arith)
            requires
                x <= SCALE,
        ;
        assert(SCALE * ema_den(alpha, (m - 1) as nat) + SCALE * e == SCALE * ema_den(alpha, m))
            by (nonlinear_arith)
            requires
                ema_den(alpha, m) == ema_den(alpha, (m - 1) as nat) + e,
        ;
        assert((m - 1) * SCALE + SCALE == m * SCALE) by (nonlinear_arith);
    }
}

proof fn lemma_ema_between(h: Seq<u64>, alpha: u64, m: nat, lo: int, hi: int)
    requires
        m <= h.len(),
        forall|i: int| 0 <= i < h.len() ==> lo <= #[trigger] h[i] <= hi,
    ensures
        lo * ema_den(alpha, m) <= ema_num(h, alpha, m) <= hi * ema_den(alpha, m),
    decreases m,
{
    if m > 0 {
        lemma_ema_between(h, alpha, (m - 1) as nat, lo, hi);
        let x = h[h.len() - m] as int;
        let e = ema_weight(alpha, (m - 1) as nat) as int;
        let d0 = ema_den(alpha, (m - 1) as nat);
        assert(lo * e <= x * e <= hi * e) by (nonlinear_arith)
            requires
                lo <= x <= hi,
                e >= 0,
        ;
        assert(lo * (d0 + e) == lo * d0 + lo * e && hi * (d0 + e) == hi * d0 + hi * e)
            by (nonlinear_arith);
    }
}

/// The exponential moving average of a non-empty history lies between the
/// smallest and the largest entry.
pub proof fn exponential_average_within_history(h: Seq<u64>, alpha: u64, lo: int, hi: int)
    requires
        0 < alpha < SCALE,
        h.len() > 0,
        all_ratios(h),
        forall|i: int| 0 <= i < h.len() ==> lo <= #[trigger] h[i] <= hi,
    ensures
        lo <= ema_value(h, alpha) <= hi,
{
    lemma_ema_between(h, alpha, h.len(), lo, hi);
    lemma_ema_sums(h, alpha, h.len());
    let num = ema_num(h, alpha, h.len());
    let den = ema_den(alpha, h.len());
    assert(lo <= num / den <= hi) by (nonlinear_arith)
        requires
            lo * den <= num <= hi * den,
            den > 0,
    ;
}

/// Always predicts an empty bar (0.0), so always goes.
#[derive(Debug, Clone, Copy)]
pub struct AlwaysGo;

impl AlwaysGo {
    pub fn decide(&self, history: &[u64]) -> (r: u64)
        ensures
            r == 0,
    {
        0
    }
}

/// Always predicts a full bar (1.0), so never goes.
#[derive(Debug, Clone, Copy)]
pub struct NeverGo;

impl NeverGo {
    pub fn decide(&self, history: &[u64]) -> (r: u64)
        ensures
            r == SCALE,
    {
        SCALE
    }
}

/// Predicts yesterday's ratio again.
#[derive(Debug, Clone, Copy)]
pub struct PredictFromYesterday;

impl PredictFromYesterday {
    pub fn decide(&self, history: &[u64]) -> (r: u64)
        ensures
            r == last_value(history@),
    {
        if history.len() == 0 {
            0
        } else {
            history[history.len() - 1]
        }
    }
}

/// Predicts the ratio of two rounds back, else the last one.
#[derive(Debug, Clone, Copy)]
pub struct PredictFromDayBeforeYesterday;

impl PredictFromDayBeforeYesterday {
    pub fn decide(&self, history: &[u64]) -> (r: u64)
        ensures
            r == day_before_value(history@),
    {
        let n = history.len();
        if n >= 2 {
            history[n - 2]
        } else if n == 1 {
            history[0]
        } else {
            0
        }
    }
}

/// Predicts a uniformly random ratio in `[0, 1]`.
#[derive(Debug, Clone, Copy)]
pub struct RandomPolicy;

impl RandomPolicy {
    pub fn decide(&self, history: &[u64], rng: &mut StdRng) -> (r: u64)
        ensures
            r <= SCALE,
    {
        draw_below(rng, SCALE + 1)
    }
}

/// Mean of the last `window_size` ratios.
#[derive(Debug, Clone, Copy)]
pub struct MovingAveragePolicy {
    pub window_size: usize,
}

impl MovingAveragePolicy {
    pub fn new(window_size: usize) -> (r: Self)
        ensures
            r.window_size == window_size,
    {
        MovingAveragePolicy { window_size }
    }

    pub fn decide(&self, history: &[u64]) -> (r: u64)
        ensures
            r == moving_average(history@, self.window_size as int),
    {
        let n = history.len();
        if self.window_size == 0 || n == 0 {
            return 0;
        }
        let start = if n > self.window_size { n - self.window_size } else { 0 };
        assert(history@.subrange(start as int, n as int) =~= last_n(history@, self.window_size as int));
        mean_range(history, start, n)
    }
}

/// Mean of the whole history.
#[derive(Debug, Clone, Copy)]
pub struct FullHistoryAveragePolicy;

impl FullHistoryAveragePolicy {
    pub fn decide(&self, history: &[u64]) -> (r: u64)
        ensures
            r == mean(history@),
    {
        assert(history@.subrange(0, history@.len() as int) =~= history@);
        mean_range(history, 0, history.len())
    }
}

/// Mean of the entries at even positions.
#[derive(Debug, Clone, Copy)]
pub struct EvenHistoryAveragePolicy;

impl EvenHistoryAveragePolicy {
    pub fn decide(&self, history: &[u64]) -> (r: u64)
        ensures
            r == mean(even_entries(history@)),
    {
        let n = history.len();
        let mut acc: u128 = 0;
        let mut count: usize = 0;
        let half = n / 2 + n % 2;
        assert(half == (n + 1) / 2);
        while count < half
            invariant
                n == history@.len(),
                half == (n + 1) / 2,
                count <= half,
                acc == sum(even_entries(history@).subrange(0, count as int)),
            decreases half - count,
        {
            proof {
                let e = even_entries(history@);
                assert(e.subrange(0, count as int + 1).drop_last() =~= e.subrange(0, count as int));
                lemma_sum_bound(e.subrange(0, count as int), u64::MAX);
                assert(count * (u64::MAX as int) + u64::MAX <= u128::MAX) by (nonlinear_arith)
                    requires
                        count <= usize::MAX,
                ;
            }
            acc = acc + history[2 * count] as u128;
            count = count + 1;
        }
        if count == 0 {
            return 0;
        }
        proof {
            let e = even_entries(history@);
            assert(e.subrange(0, count as int) =~= e);
            lemma_mean_bound(e, u64::MAX);
        }
        (acc / (count as u128)) as u64
    }
}

/// `(sqrt((b_n^2 + b_{n-1}^2) / 2) + b_{n-2}) / 2`, or 0 with fewer than three entries.
#[derive(Debug, Clone, Copy)]
pub struct ComplexFormulaPolicy;

impl ComplexFormulaPolicy {
    pub fn decide(&self, history: &[u64]) -> (r: u64)
        requires
            all_ratios(history@),
        ensures
            r == complex_formula(history@),
    {
        let n = history.len();
        if n < 3 {
            return 0;
        }
        let a = history[n - 1];
        let b = history[n - 2];
        let c = history[n - 3];
        assert(a * a <= SCALE * SCALE && b * b <= SCALE * SCALE) by (nonlinear_arith)
            requires
                a <= SCALE,
                b <= SCALE,
        ;
        let s = isqrt((a * a + b * b) / 2);
        assert(s <= SCALE) by (nonlinear_arith)
            requires
                (s as int) * (s as int) <= (a * a + b * b) / 2,
                a * a <= SCALE * SCALE,
                b * b <= SCALE * SCALE,
        ;
        (s + c) / 2
    }
}

/// Mean of the whole history minus 0.05, kept within `[0, 1]`.
#[derive(Debug, Clone, Copy)]
pub struct DrunkardPolicy;

impl DrunkardPolicy {
    pub fn decide(&self, history: &[u64]) -> (r: u64)
        ensures
            r == drunkard_value(history@),
    {
        let m = FullHistoryAveragePolicy.decide(history);
        if m <= NUDGE {
            0
        } else if m - NUDGE >= SCALE {
            SCALE
        } else {
            m - NUDGE
        }
    }
}

/// Mean of the whole history plus 0.05, kept within `[0, 1]`.
#[derive(Debug, Clone, Copy)]
pub struct StupidNerdPolicy;

impl StupidNerdPolicy {
    pub fn decide(&self, history: &[u64]) -> (r: u64)
        ensures
            r == stupid_nerd_value(history@),
    {
        let m = FullHistoryAveragePolicy.decide(history);
        if m >= SCALE - NUDGE {
            SCALE
        } else {
            m + NUDGE
        }
    }
}

/// `rev_dot` of the history against a weight vector.
fn rev_dot_of(h: &[u64], w: &[u64], m: usize) -> (r: u128)
    requires
        m <= h@.len(),
        m <= w@.len(),
        all_ratios(h@),
        forall|i: int| 0 <= i < w@.len() ==> w@[i] < MAX_WEIGHT,
    ensures
        r == rev_dot(h@, w@, m as nat),
        r <= m * (SCALE * (MAX_WEIGHT - 1)),
{
    let n = h.len();
    let mut acc: u128 = 0;
    let mut i: usize = 0;
    while i < m
        invariant
            i <= m <= n,
            n == h@.len(),
            m <= w@.len(),
            all_ratios(h@),
            forall|j: int| 0 <= j < w@.len() ==> w@[j] < MAX_WEIGHT,
            acc == rev_dot(h@, w@, i as nat),
        decreases m - i,
    {
        proof {
            lemma_rev_dot_bound(h@, w@, (i + 1) as nat, SCALE, (MAX_WEIGHT - 1) as u64);
            assert((i + 1) * (SCALE * (MAX_WEIGHT - 1)) <= u128::MAX) by (nonlinear_arith)
                requires
                    i < usize::MAX,
            ;
        }
        let x = h[n - 1 - i];
        let y = w[i];
        assert(x * y <= SCALE * (MAX_WEIGHT - 1)) by (nonlinear_arith)
            requires
                x <= SCALE,
                y < MAX_WEIGHT,
        ;
        acc = acc + (x as u128) * (y as u128);
        i = i + 1;
    }
    proof {
        lemma_rev_dot_bound(h@, w@, m as nat, SCALE, (MAX_WEIGHT - 1) as u64);
    }
    acc
}

/// Predicts a uniformly random ratio in `[low, high]`.
#[derive(Debug, Clone, Copy)]
pub struct UniformPolicy {
    pub low: u64,
    pub high: u64,
}

impl UniformPolicy {
    pub open spec fn well_formed(&self) -> bool {
        self.low <= self.high <= SCALE
    }

    pub fn new(low: u64, high: u64) -> (r: Self)
        requires
            low <= high <= SCALE,
        ensures
            r.low == low,
            r.high == high,
            r.well_formed(),
    {
        UniformPolicy { low, high }
    }

    pub fn decide(&self, history: &[u64], rng: &mut StdRng) -> (r: u64)
        requires
            self.well_formed(),
        ensures
            self.low <= r <= self.high,
    {
        self.low + draw_below(rng, self.high - self.low + 1)
    }
}

/// Weighted mean of the whole history. The weight of each position, counted back
/// from the most recent entry, is drawn once from `[0, 2)` the first time it is
/// needed and kept for the life of the policy.
#[derive(Debug, Clone)]
pub struct WeightedHistoryPolicy {
    pub weights: Vec<u64>,
}

impl WeightedHistoryPolicy {
    /// Every weight was drawn from `[0, 2)`.
    pub open spec fn well_formed(&self) -> bool {
        forall|i: int| 0 <= i < self.weights@.len() ==> self.weights@[i] < MAX_WEIGHT
    }

    pub fn new() -> (r: Self)
        ensures
            r.weights@.len() == 0,
            r.well_formed(),
    {
        WeightedHistoryPolicy { weights: Vec::new() }
    }

    pub fn decide(&mut self, history: &[u64], rng: &mut StdRng) -> (r: u64)
        requires
            old(self).well_formed(),
            all_ratios(history@),
        ensures
            final(self).well_formed(),
            final(self).weights@.len() == if old(self).weights@.len() >= history@.len() {
                old(self).weights@.len()
            } else {
                history@.len()
            },
            final(self).weights@.subrange(0, old(self).weights@.len() as int) == old(self).weights@,
            old(self).weights@.len() >= history@.len() ==> *final(self) == *old(self),
            r == weighted_value(history@, final(self).weights@),
            r < MAX_WEIGHT,
    {
        let n = history.len();
        while self.weights.len() < n
            invariant
                self.well_formed(),
                self.weights@.len() >= old(self).weights@.len(),
                self.weights@.len() <= if old(self).weights@.len() >= n {
                    old(self).weights@.len()
                } else {
                    n as nat
                },
                self.weights@.subrange(0, old(self).weights@.len() as int) == old(self).weights@,
                old(self).weights@.len() >= n ==> *self == *old(self),
            decreases n - self.weights@.len(),
        {
            let w = draw_below(rng, MAX_WEIGHT);
            self.weights.push(w);
            assert(self.weights@.subrange(0, old(self).weights@.len() as int)
                =~= old(self).weights@);
        }
        if n == 0 {
            return 0;
        }
        let t = rev_dot_of(history, self.weights.as_slice(), n);
        let d = (n as u128) * (SCALE as u128);
        assert(t / d < MAX_WEIGHT) by (nonlinear_arith)
            requires
                t <= n * (SCALE * (MAX_WEIGHT - 1)),
                d == n * SCALE,
                n > 0,
        ;
        (t / d) as u64
    }
}

impl Default for WeightedHistoryPolicy {
    fn default() -> (r: Self)
        ensures
            r.weights@.len() == 0,
    {
        WeightedHistoryPolicy::new()
    }
}

/// Weighted mean of the last five entries, with five weights drawn from
/// `[0, 2)` when the policy is made.
#[derive(Debug, Clone)]
pub struct SlidingWeightedAveragePolicy {
    pub weights: Vec<u64>,
}

impl SlidingWeightedAveragePolicy {
    /// Five weights, each drawn from `[0, 2)`.
    pub open spec fn well_formed(&self) -> bool {
        &&& self.weights@.len() == SLIDING_WINDOW
        &&& forall|i: int| 0 <= i < self.weights@.len() ==> self.weights@[i] < MAX_WEIGHT
    }

    pub fn new(rng: &mut StdRng) -> (r: Self)
        ensures
            r.well_formed(),
    {
        let mut weights: Vec<u64> = Vec::new();
        while weights.len() < SLIDING_WINDOW
            invariant
                weights@.len() <= SLIDING_WINDOW,
                forall|i: int| 0 <= i < weights@.len() ==> weights@[i] < MAX_WEIGHT,
            decreases SLIDING_WINDOW - weights@.len(),
        {
            weights.push(draw_below(rng, MAX_WEIGHT));
        }
        SlidingWeightedAveragePolicy { weights }
    }

    pub fn decide(&self, history: &[u64]) -> (r: u64)
        requires
            self.well_formed(),
            all_ratios(history@),
        ensures
            r == sliding_value(history@, self.weights@),
            r < MAX_WEIGHT,
    {
        let n = history.len();
        let m = if n < SLIDING_WINDOW { n } else { SLIDING_WINDOW };
        if m == 0 {
            return 0;
        }
        let t = rev_dot_of(history, self.weights.as_slice(), m);
        let d = (m as u128) * (SCALE as u128);
        assert(t / d < MAX_WEIGHT) by (nonlinear_arith)
            requires
                t <= m * (SCALE * (MAX_WEIGHT - 1)),
                d == m * SCALE,
                m > 0,
        ;
        (t / d) as u64
    }
}

/// Weighted mean with weight `alpha^k` on the `k`-th most recent entry.
#[derive(Debug, Clone, Copy)]
pub struct ExponentialMovingAveragePolicy {
    pub alpha: u64,
}

impl ExponentialMovingAveragePolicy {
    pub open spec fn well_formed(&self) -> bool {
        0 < self.alpha < SCALE
    }

    pub fn new(alpha: u64) -> (r: Self)
        requires
            0 < alpha < SCALE,
        ensures
            r.alpha == alpha,
            r.well_formed(),
    {
        ExponentialMovingAveragePolicy { alpha }
    }

    pub fn decide(&self, history: &[u64]) -> (r: u64)
        requires
            self.well_formed(),
            all_ratios(history@),
        ensures
            r == ema_value(history@, self.alpha),
            r <= SCALE,
    {
        let n = history.len();
        if n == 0 {
            return 0;
        }
        let alpha = self.alpha;
        let mut num: u128 = 0;
        let mut den: u128 = 0;
        let mut e: u64 = SCALE;
        let mut k: usize = 0;
        while k < n
            invariant
                k <= n == history@.len(),
                0 < alpha < SCALE,
                all_ratios(history@),
                e == ema_weight(alpha, k as nat),
                num == ema_num(history@, alpha, k as nat),
                den == ema_den(alpha, k as nat),
            decreases n - k,
        {
            proof {
                lemma_ema_sums(history@, alpha, (k + 1) as nat);
                lemma_ema_weight_bound(alpha, k as nat);
                assert((k + 1) * SCALE * SCALE <= u128::MAX) by (nonlinear_arith)
                    requires
                        k < usize::MAX,
                ;
                assert(SCALE * ema_den(alpha, (k + 1) as nat) <= (k + 1) * SCALE * SCALE)
                    by (nonlinear_arith)
                    requires
                        ema_den(alpha, (k + 1) as nat) <= (k + 1) * SCALE,
                ;
            }
            let x = history[n - 1 - k];
            assert(x * e <= SCALE * SCALE) by (nonlinear_arith)
                requires
                    x <= SCALE,
                    e <= SCALE,
            ;
            num = num + (x as u128) * (e as u128);
            den = den + e as u128;
            assert(e * alpha <= SCALE * SCALE) by (nonlinear_arith)
                requires
                    e <= SCALE,
                    alpha < SCALE,
            ;
            e = e * alpha / SCALE;
            k = k + 1;
        }
        proof {
            lemma_ema_sums(history@, alpha, n as nat);
        }
        assert(num / den <= SCALE) by (nonlinear_arith)
            requires
                num <= SCALE * den,
                den >= SCALE,
        ;
        (num / den) as u64
    }
}

/// The catalogue of prediction policies.
#[derive(Debug, Clone)]
pub enum Policy {
    AlwaysGo,
    NeverGo,
    PredictFromYesterday,
    PredictFromDayBeforeYesterday,
    Random,
    MovingAverage(MovingAveragePolicy),
    FullHistoryAverage,
    EvenHistoryAverage,
    ComplexFormula,
    Drunkard,
    StupidNerd,
    Uniform(UniformPolicy),
    WeightedHistory(WeightedHistoryPolicy),
    SlidingWeightedAverage(SlidingWeightedAveragePolicy),
    ExponentialMovingAverage(ExponentialMovingAveragePolicy),
    GeneralizedMean(GeneralizedMeanPolicy),
}

impl Policy {
    pub open spec fn well_formed(&self) -> bool {
        match self {
            Policy::Uniform(p) => p.well_formed(),
            Policy::WeightedHistory(p) => p.well_formed(),
            Policy::SlidingWeightedAverage(p) => p.well_formed(),
            Policy::ExponentialMovingAverage(p) => p.well_formed(),
            _ => true,
        }
    }

    /// Whether `r` is a prediction this policy may make on history `h`: the exact
    /// value for the deterministic policies, the drawn range for the random ones.
    pub open spec fn allows(&self, h: Seq<u64>, r: u64) -> bool {
        match self {
            Policy::AlwaysGo => r == 0,
            Policy::NeverGo => r == SCALE,
            Policy::PredictFromYesterday => r == last_value(h),
            Policy::PredictFromDayBeforeYesterday => r == day_before_value(h),
            Policy::Random => r <= SCALE,
            Policy::MovingAverage(p) => r == moving_average(h, p.window_size as int),
            Policy::FullHistoryAverage => r == mean(h),
            Policy::EvenHistoryAverage => r == mean(even_entries(h)),
            Policy::ComplexFormula => r == complex_formula(h),
            Policy::Drunkard => r == drunkard_value(h),
            Policy::StupidNerd => r == stupid_nerd_value(h),
            Policy::Uniform(p) => p.low <= r <= p.high,
            Policy::WeightedHistory(p) => p.weights@.len() >= h.len() && r == weighted_value(
                h,
                p.weights@,
            ),
            Policy::SlidingWeightedAverage(p) => r == sliding_value(h, p.weights@),
            Policy::ExponentialMovingAverage(p) => r == ema_value(h, p.alpha),
            Policy::GeneralizedMean(p) => r == generalized_mean(
                h,
                p.window as int,
                p.exponent as int,
            ),
        }
    }

    /// The policy's cache already holds what history `h` needs.
    pub open spec fn covers(&self, h: Seq<u64>) -> bool {
        match self {
            Policy::WeightedHistory(p) => p.weights@.len() >= h.len(),
            _ => true,
        }
    }

    /// `next` is this policy with, at most, its cache of weights extended.
    pub open spec fn evolves_to(&self, next: Policy) -> bool {
        match (self, next) {
            (Policy::WeightedHistory(a), Policy::WeightedHistory(b)) => {
                &&& b.weights@.len() >= a.weights@.len()
                &&& b.weights@.subrange(0, a.weights@.len() as int) == a.weights@
            },
            _ => next == *self,
        }
    }

    /// The largest prediction the policy makes on ratios.
    pub open spec fn upper_bound(&self) -> u64 {
        match self {
            Policy::Uniform(p) => p.high,
            Policy::WeightedHistory(_) => (MAX_WEIGHT - 1) as u64,
            Policy::SlidingWeightedAverage(_) => (MAX_WEIGHT - 1) as u64,
            _ => SCALE,
        }
    }

    /// The smallest prediction the policy makes.
    pub open spec fn lower_bound(&self) -> u64 {
        match self {
            Policy::Uniform(p) => p.low,
            Policy::NeverGo => SCALE,
            _ => 0,
        }
    }

    /// The policies that draw their prediction at random.
    pub open spec fn is_random(&self) -> bool {
        self is Random || self is Uniform
    }

    /// What a policy that draws nothing predicts while the history is empty.
    pub open spec fn empty_history_prediction(&self) -> int {
        match self {
            Policy::NeverGo => SCALE as int,
            Policy::StupidNerd => NUDGE as int,
            _ => 0,
        }
    }

    /// Two policies are the same variant with the same parameters (caches aside);
    /// this is what equal display names mean.
    pub open spec fn same_identity(&self, other: Policy) -> bool {
        match (self, other) {
            (Policy::AlwaysGo, Policy::AlwaysGo) => true,
            (Policy::NeverGo, Policy::NeverGo) => true,
            (Policy::PredictFromYesterday, Policy::PredictFromYesterday) => true,
            (Policy::PredictFromDayBeforeYesterday, Policy::PredictFromDayBeforeYesterday) => true,
            (Policy::Random, Policy::Random) => true,
            (Policy::MovingAverage(a), Policy::MovingAverage(b)) => a.window_size == b.window_size,
            (Policy::FullHistoryAverage, Policy::FullHistoryAverage) => true,
            (Policy::EvenHistoryAverage, Policy::EvenHistoryAverage) => true,
            (Policy::ComplexFormula, Policy::ComplexFormula) => true,
            (Policy::Drunkard, Policy::Drunkard) => true,
            (Policy::StupidNerd, Policy::StupidNerd) => true,
            (Policy::Uniform(a), Policy::Uniform(b)) => a.low == b.low && a.high == b.high,
            (Policy::WeightedHistory(_), Policy::WeightedHistory(_)) => true,
            (Policy::SlidingWeightedAverage(_), Policy::SlidingWeightedAverage(_)) => true,
            (Policy::ExponentialMovingAverage(a), Policy::ExponentialMovingAverage(b)) => a.alpha
                == b.alpha,
            (Policy::GeneralizedMean(a), Policy::GeneralizedMean(b)) => a.window == b.window
                && a.exponent == b.exponent,
            _ => false,
        }
    }

    pub fn is_same_policy(&self, other: &Policy) -> (r: bool)
        ensures
            r == self.same_identity(*other),
    {
        match (self, other) {
            (Policy::AlwaysGo, Policy::AlwaysGo) => true,
            (Policy::NeverGo, Policy::NeverGo) => true,
            (Policy::PredictFromYesterday, Policy::PredictFromYesterday) => true,
            (Policy::PredictFromDayBeforeYesterday, Policy::PredictFromDayBeforeYesterday) => true,
            (Policy::Random, Policy::Random) => true,
            (Policy::MovingAverage(a), Policy::MovingAverage(b)) => a.window_size == b.window_size,
            (Policy::FullHistoryAverage, Policy::FullHistoryAverage) => true,
            (Policy::EvenHistoryAverage, Policy::EvenHistoryAverage) => true,
            (Policy::ComplexFormula, Policy::ComplexFormula) => true,
            (Policy::Drunkard, Policy::Drunkard) => true,
            (Policy::StupidNerd, Policy::StupidNerd) => true,
            (Policy::Uniform(a), Policy::Uniform(b)) => a.low == b.low && a.high == b.high,
            (Policy::WeightedHistory(_), Policy::WeightedHistory(_)) => true,
            (Policy::SlidingWeightedAverage(_), Policy::SlidingWeightedAverage(_)) => true,
            (Policy::ExponentialMovingAverage(a), Policy::ExponentialMovingAverage(b)) => a.alpha
                == b.alpha,
            (Policy::GeneralizedMean(a), Policy::GeneralizedMean(b)) => a.window == b.window
                && a.exponent == b.exponent,
            _ => false,
        }
    }

    /// Predicts the next attendance ratio from the shared history.
    pub fn decide(&mut self, history: &[u64], rng: &mut StdRng) -> (r: u64)
        requires
            old(self).well_formed(),
            all_ratios(history@),
        ensures
            final(self).well_formed(),
            final(self).allows(history@, r),
            final(self).covers(history@),
            old(self).evolves_to(*final(self)),
            old(self).covers(history@) ==> *final(self) == *old(self),
    {
        match self {
            Policy::AlwaysGo => AlwaysGo.decide(history),
            Policy::NeverGo => NeverGo.decide(history),
            Policy::PredictFromYesterday => PredictFromYesterday.decide(history),
            Policy::PredictFromDayBeforeYesterday => PredictFromDayBeforeYesterday.decide(history),
            Policy::Random => RandomPolicy.decide(history, rng),
            Policy::MovingAverage(p) => p.decide(history),
            Policy::FullHistoryAverage => FullHistoryAveragePolicy.decide(history),
            Policy::EvenHistoryAverage => EvenHistoryAveragePolicy.decide(history),
            Policy::ComplexFormula => ComplexFormulaPolicy.decide(history),
            Policy::Drunkard => DrunkardPolicy.decide(history),
            Policy::StupidNerd => StupidNerdPolicy.decide(history),
            Policy::Uniform(p) => p.decide(history, rng),
            Policy::WeightedHistory(p) => p.decide(history, rng),
            Policy::SlidingWeightedAverage(p) => p.decide(history),
            Policy::ExponentialMovingAverage(p) => p.decide(history),
            Policy::GeneralizedMean(p) => p.decide(history),
        }
    }
}

pub proof fn lemma_evolves_reflexive(a: Policy)
    ensures
        a.evolves_to(a),
{
    if let Policy::WeightedHistory(x) = a {
        assert(x.weights@.subrange(0, x.weights@.len() as int) =~= x.weights@);
    }
}

pub proof fn lemma_evolves_transitive(a: Policy, b: Policy, c: Policy)
    requires
        a.evolves_to(b),
        b.evolves_to(c),
    ensures
        a.evolves_to(c),
{
    if let (Policy::WeightedHistory(x), Policy::WeightedHistory(z)) = (a, c) {
        if let Policy::WeightedHistory(y) = b {
            assert(z.weights@.subrange(0, x.weights@.len() as int) =~= z.weights@.subrange(
                0,
                y.weights@.len() as int,
            ).subrange(0, x.weights@.len() as int));
        }
    }
}

/// A prediction allowed before the cache grew is still allowed after.
pub proof fn lemma_allows_kept(a: Policy, b: Policy, h: Seq<u64>, r: u64)
    requires
        a.allows(h, r),
        a.evolves_to(b),
    ensures
        b.allows(h, r),
{
    if let (Policy::WeightedHistory(x), Policy::WeightedHistory(y)) = (a, b) {
        if h.len() > 0 {
            let m = h.len();
            assert(x.weights@.subrange(0, m as int) =~= y.weights@.subrange(0, m as int)) by {
                assert(y.weights@.subrange(0, m as int) =~= y.weights@.subrange(
                    0,
                    x.weights@.len() as int,
                ).subrange(0, m as int));
            }
            lemma_rev_dot_prefix(h, x.weights@, y.weights@, m);
        }
    }
}

/// Every policy keeps to its documented range on a history of ratios, and each
/// policy that draws nothing makes its documented default prediction while the
/// history is empty.
pub proof fn decide_respects_range(p: Policy, h: Seq<u64>, r: u64)
    requires
        p.well_formed(),
        all_ratios(h),
        p.allows(h, r),
    ensures
        p.lower_bound() <= r <= p.upper_bound(),
        h.len() == 0 && !p.is_random() ==> r == p.empty_history_prediction(),
{
    lemma_mean_bound(h, SCALE);
    match p {
        Policy::MovingAverage(q) => {
            if h.len() == 0 {
                assert(last_n(h, q.window_size as int) == h);
            }
            if q.window_size > 0 {
                lemma_mean_bound(last_n(h, q.window_size as int), SCALE);
            }
        },
        Policy::EvenHistoryAverage => {
            lemma_mean_bound(even_entries(h), SCALE);
        },
        Policy::ComplexFormula => {
            if h.len() >= 3 {
                let a = h[h.len() - 1] as nat;
                let b = h[h.len() - 2] as nat;
                let x = (a * a + b * b) / 2;
                let s = floor_sqrt(x);
                assert(x <= SCALE * SCALE) by (nonlinear_arith)
                    requires
                        a <= SCALE,
                        b <= SCALE,
                        x == (a * a + b * b) / 2,
                ;
                lemma_floor_sqrt_bound(x, SCALE as nat);
            }
        },
        Policy::WeightedHistory(q) => {
            if h.len() > 0 {
                lemma_rev_dot_bound(h, q.weights@, h.len(), SCALE, (MAX_WEIGHT - 1) as u64);
                let t = rev_dot(h, q.weights@, h.len());
                let n = h.len() as int;
                assert(t / (n * SCALE) <= MAX_WEIGHT - 1) by (nonlinear_arith)
                    requires
                        0 <= t <= n * (SCALE * (MAX_WEIGHT - 1)),
                        n > 0,
                ;
                assert(t / (n * SCALE) >= 0) by (nonlinear_arith)
                    requires
                        0 <= t,
                        n > 0,
                ;
            }
        },
        Policy::SlidingWeightedAverage(q) => {
            let m: nat = if h.len() < SLIDING_WINDOW { h.len() } else { SLIDING_WINDOW as nat };
            if m > 0 {
                lemma_rev_dot_bound(h, q.weights@, m, SCALE, (MAX_WEIGHT - 1) as u64);
                let t = rev_dot(h, q.weights@, m);
                assert(t / (m * SCALE) <= MAX_WEIGHT - 1) by (nonlinear_arith)
                    requires
                        0 <= t <= m * (SCALE * (MAX_WEIGHT - 1)),
                        m > 0,
                ;
                assert(t / (m * SCALE) >= 0) by (nonlinear_arith)
                    requires
                        0 <= t,
                        m > 0,
                ;
            }
        },
        Policy::ExponentialMovingAverage(q) => {
            if h.len() > 0 {
                lemma_ema_sums(h, q.alpha, h.len());
                let num = ema_num(h, q.alpha, h.len());
                let den = ema_den(q.alpha, h.len());
                assert(0 <= num / den <= SCALE) by (nonlinear_arith)
                    requires
                        0 <= num <= SCALE * den,
                        den >= SCALE,
                ;
            }
        },
        Policy::GeneralizedMean(q) => {
            lemma_generalized_mean_range(h, q.window as int, q.exponent as int);
        },
        _ => {},
    }
}

/// The decimal digits of `n`.
pub open spec fn decimal(n: nat) -> Seq<char>
    decreases n,
{
    if n < 10 {
        seq![((48 + n) as u32) as char]
    } else {
        decimal(n / 10).push(((48 + n % 10) as u32) as char)
    }
}

/// Relies on `format!` with std's `Display` for `u64`: the decimal digits of `n`,
/// appended to `text`.
#[verifier::external_body]
fn with_number(text: String, n: u64) -> (r: String)
    ensures
        r@ == text@ + decimal(n as nat),
{
    format!("{}{}", text, n)
}

/// The magnitude of a possibly negative exponent.
pub open spec fn magnitude(x: i32) -> nat {
    if x < 0 {
        (-x) as nat
    } else {
        x as nat
    }
}

impl Policy {
    /// The display name.
    pub open spec fn display_name(&self) -> Seq<char> {
        match self {
            Policy::AlwaysGo => "Always Go"@,
            Policy::NeverGo => "Never Go"@,
            Policy::PredictFromYesterday => "Predict from yesterday"@,
            Policy::PredictFromDayBeforeYesterday => "Predict from day before yesterday"@,
            Policy::Random => "Random"@,
            Policy::MovingAverage(p) => "Moving Average ("@ + decimal(p.window_size as nat) + ")"@,
            Policy::FullHistoryAverage => "Full History Average"@,
            Policy::EvenHistoryAverage => "Even History Average"@,
            Policy::ComplexFormula => "Complex Formula"@,
            Policy::Drunkard => "Drunkard"@,
            Policy::StupidNerd => "Stupid Nerd"@,
            Policy::Uniform(p) => "Uniform ["@ + decimal(p.low as nat) + ".."@ + decimal(
                p.high as nat,
            ) + "]"@,
            Policy::WeightedHistory(_) => "Weighted History"@,
            Policy::SlidingWeightedAverage(_) => "Sliding Weighted Average (5)"@,
            Policy::ExponentialMovingAverage(p) => "Exponential Moving Average (a="@ + decimal(
                p.alpha as nat,
            ) + ")"@,
            Policy::GeneralizedMean(p) => "Generalized Mean (m="@ + decimal(p.window as nat) + (if p.exponent
                < 0 {
                ", r=-"@
            } else {
                ", r="@
            }) + decimal(magnitude(p.exponent)) + ")"@,
        }
    }

    /// The display name; equal names mean the same policy (see `same_identity`).
    pub fn name(&self) -> (r: String)
        ensures
            r@ == self.display_name(),
    {
        match self {
            Policy::AlwaysGo => String::from_str("Always Go"),
            Policy::NeverGo => String::from_str("Never Go"),
            Policy::PredictFromYesterday => String::from_str("Predict from yesterday"),
            Policy::PredictFromDayBeforeYesterday => String::from_str(
                "Predict from day before yesterday",
            ),
            Policy::Random => String::from_str("Random"),
            Policy::MovingAverage(p) => {
                let mut s = with_number(String::from_str("Moving Average ("), p.window_size as u64);
                s.append(")");
                s
            },
            Policy::FullHistoryAverage => String::from_str("Full History Average"),
            Policy::EvenHistoryAverage => String::from_str("Even History Average"),
            Policy::ComplexFormula => String::from_str("Complex Formula"),
            Policy::Drunkard => String::from_str("Drunkard"),
            Policy::StupidNerd => String::from_str("Stupid Nerd"),
            Policy::Uniform(p) => {
                let s = with_number(String::from_str("Uniform ["), p.low);
                let mut s = with_number(s.concat(".."), p.high);
                s.append("]");
                s
            },
            Policy::WeightedHistory(_) => String::from_str("Weighted History"),
            Policy::SlidingWeightedAverage(_) => String::from_str("Sliding Weighted Average (5)"),
            Policy::ExponentialMovingAverage(p) => {
                let mut s = with_number(String::from_str("Exponential Moving Average (a="), p.alpha);
                s.append(")");
                s
            },
            Policy::GeneralizedMean(p) => {
                let s = with_number(String::from_str("Generalized Mean (m="), p.window as u64);
                let s = if p.exponent < 0 {
                    let m: u64 = if p.exponent == i32::MIN {
                        2147483648
                    } else {
                        (-p.exponent) as u64
                    };
                    with_number(s.concat(", r=-"), m)
                } else {
                    with_number(s.concat(", r="), p.exponent as u64)
                };
                let mut s = s;
                s.append(")");
                s
            },
        }
    }
}

/// Predicts the attendance ratio of the last round again, from a history of
/// round results.
#[derive(Debug, Clone, Copy)]
pub struct GoIfLessThanSixty;

impl GoIfLessThanSixty {
    pub fn decide(&self, history: &[GameResult]) -> (r: u64)
        requires
            forall|i: int|
                0 <= i < history@.len() ==> #[trigger] history@[i].total_attendance
                    <= history@[i].total_agents,
        ensures
            r == (if history@.len() == 0 {
                0
            } else {
                attendance_ratio(
                    history@.last().total_attendance as nat,
                    history@.last().total_agents as nat,
                )
            }),
    {
        let n = history.len();
        if n == 0 {
            0
        } else {
            history[n - 1].attendance_ratio()
        }
    }
}

} // verus!
