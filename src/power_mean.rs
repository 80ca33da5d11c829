//! The generalized (power) mean over a trailing window, in fixed point.
//!
//! For an exponent `k > 0` the result is the largest `y <= SCALE` whose `k`-th
//! power, times the window length, does not exceed the sum of the `k`-th powers
//! of the window. For `-k < 0` the same root is taken over the reciprocals and
//! then inverted, so that the exponent -1 gives the harmonic mean.

use vstd::prelude::*;
use crate::policy::moving_average;
use crate::ratio::{SCALE, sum, mean, all_ratios, last_n, largest_at_most, downward_closed,
    lemma_largest_at_most, lemma_largest_at_most_is_max, lemma_largest_at_most_props, lemma_sum_bound, lemma_mean_bound};

verus! {

/// Powers saturate at `SCALE^3`, far above any mean of ratios.
pub const POWER_CAP: u128 = 1000000000000000000;

/// `SCALE * SCALE`: the fixed-point reciprocal of `b` is `SQUARE_SCALE / b`.
pub const SQUARE_SCALE: u64 = 1000000000000;

/// `b^k` in fixed point (`SCALE * (b / SCALE)^k`), each product rounded down and
/// held at `POWER_CAP` at most.
pub open spec fn power_term(b: nat, k: nat) -> nat
    decreases k,
{
    if k == 0 {
        SCALE as nat
    } else {
        let p = power_term(b, (k - 1) as nat) * b / (SCALE as nat);
        if p > POWER_CAP {
            POWER_CAP as nat
        } else {
            p
        }
    }
}

pub open spec fn sum_powers(s: Seq<u64>, k: nat) -> nat
    decreases s.len(),
{
    if s.len() == 0 {
        0
    } else {
        sum_powers(s.drop_last(), k) + power_term(s.last() as nat, k)
    }
}

pub open spec fn root_pred(total: nat, n: nat, k: nat) -> spec_fn(nat) -> bool {
    |y: nat| n * power_term(y, k) <= total
}

/// The largest `y <= hi` with `n * y^k <= total`.
pub open spec fn power_root(total: nat, n: nat, k: nat, hi: nat) -> nat {
    largest_at_most(root_pred(total, n, k), hi)
}

/// Fixed-point reciprocals `1 / x` (0 stands for itself).
pub open spec fn reciprocals(s: Seq<u64>) -> Seq<u64> {
    Seq::new(
        s.len(),
        |i: int|
            if s[i] == 0 {
                0u64
            } else {
                (SQUARE_SCALE / s[i]) as u64
            },
    )
}

pub open spec fn has_zero(s: Seq<u64>) -> bool {
    exists|i: int| 0 <= i < s.len() && s[i] == 0
}

/// The generalized mean with exponent `r` of the last `window` entries (0 for
/// the exponent 0, which has no power mean of this form).
pub open spec fn generalized_mean(h: Seq<u64>, window: int, r: int) -> int {
    let w = last_n(h, window);
    if window <= 0 || w.len() == 0 || r == 0 {
        0
    } else if r > 0 {
        power_root(sum_powers(w, r as nat), w.len(), r as nat, SCALE as nat) as int
    } else if has_zero(w) {
        0
    } else {
        let z = power_root(
            sum_powers(reciprocals(w), (-r) as nat),
            w.len(),
            (-r) as nat,
            SQUARE_SCALE as nat,
        );
        if z == 0 {
            0
        } else {
            (SQUARE_SCALE as int) / (z as int)
        }
    }
}

/// The harmonic mean: the reciprocal of the mean of the reciprocals.
pub open spec fn harmonic_mean(w: Seq<u64>) -> int {
    let m = mean(reciprocals(w));
    if m == 0 {
        0
    } else {
        (SQUARE_SCALE as int) / m
    }
}

pub proof fn lemma_power_term_monotone(a: nat, b: nat, k: nat)
    requires
        a <= b,
    ensures
        power_term(a, k) <= power_term(b, k),
    decreases k,
{
    if k > 0 {
        lemma_power_term_monotone(a, b, (k - 1) as nat);
        let pa = power_term(a, (k - 1) as nat);
        let pb = power_term(b, (k - 1) as nat);
        assert(pa * a / (SCALE as nat) <= pb * b / (SCALE as nat)) by (nonlinear_arith)
            requires
                pa <= pb,
                a <= b,
        ;
    }
}

pub proof fn lemma_power_term_bound(b: nat, k: nat)
    ensures
        power_term(b, k) <= POWER_CAP,
        k > 0 ==> b == 0 ==> power_term(b, k) == 0,
        b == SCALE ==> power_term(b, k) == SCALE,
    decreases k,
{
    if k > 0 {
        lemma_power_term_bound(b, (k - 1) as nat);
        if b == 0 {
            assert(power_term(b, (k - 1) as nat) * 0 == 0);
        }
        if b == SCALE {
            assert((SCALE as nat) * (SCALE as nat) / (SCALE as nat) == SCALE) by (nonlinear_arith);
        }
    }
}

pub proof fn lemma_root_pred_closed(total: nat, n: nat, k: nat)
    ensures
        downward_closed(root_pred(total, n, k)),
{
    let p = root_pred(total, n, k);
    assert forall|a: nat, b: nat| a <= b && #[trigger] p(b) implies #[trigger] p(a) by {
        lemma_power_term_monotone(a, b, k);
        let pa = power_term(a, k);
        let pb = power_term(b, k);
        assert(n * pa <= n * pb) by (nonlinear_arith)
            requires
                pa <= pb,
        ;
    }
}

pub proof fn lemma_sum_powers_bound(s: Seq<u64>, k: nat)
    ensures
        sum_powers(s, k) <= s.len() * POWER_CAP,
    decreases s.len(),
{
    if s.len() > 0 {
        lemma_sum_powers_bound(s.drop_last(), k);
        lemma_power_term_bound(s.last() as nat, k);
        assert((s.len() - 1) * POWER_CAP + POWER_CAP == s.len() * POWER_CAP) by (nonlinear_arith);
    }
}

pub proof fn lemma_sum_powers_one(s: Seq<u64>)
    requires
        all_ratios(s),
    ensures
        sum_powers(s, 1) == sum(s),
    decreases s.len(),
{
    if s.len() > 0 {
        lemma_sum_powers_one(s.drop_last());
        let b = s.last() as nat;
        assert(power_term(b, 0) == SCALE);
        assert((SCALE as nat) * b / (SCALE as nat) == b) by (nonlinear_arith);
    }
}

pub proof fn lemma_sum_powers_one_any(s: Seq<u64>)
    requires
        forall|i: int| 0 <= i < s.len() ==> s[i] <= SQUARE_SCALE,
    ensures
        sum_powers(s, 1) == sum(s),
    decreases s.len(),
{
    if s.len() > 0 {
        assert forall|i: int| 0 <= i < s.drop_last().len() implies s.drop_last()[i]
            <= SQUARE_SCALE by {
            assert(s.drop_last()[i] == s[i]);
        }
        lemma_sum_powers_one_any(s.drop_last());
        let b = s.last() as nat;
        assert(b <= SQUARE_SCALE);
        assert(power_term(b, 0) == SCALE);
        assert((SCALE as nat) * b / (SCALE as nat) == b) by (nonlinear_arith);
        assert(power_term(b, 1) == b);
    }
}

/// Every term of at least `SCALE` makes the sum of powers at least `SCALE` per term.
pub proof fn lemma_sum_powers_floor(s: Seq<u64>, k: nat)
    requires
        forall|i: int| 0 <= i < s.len() ==> s[i] >= SCALE,
    ensures
        sum_powers(s, k) >= s.len() * SCALE,
    decreases s.len(),
{
    if s.len() > 0 {
        lemma_sum_powers_floor(s.drop_last(), k);
        lemma_power_term_monotone(SCALE as nat, s.last() as nat, k);
        lemma_power_term_bound(SCALE as nat, k);
        assert((s.len() - 1) * SCALE + SCALE == s.len() * SCALE) by (nonlinear_arith);
    }
}

proof fn lemma_sum_powers_at_least(s: Seq<u64>, k: nat, lo: nat)
    requires
        forall|i: int| 0 <= i < s.len() ==> lo <= #[trigger] s[i],
    ensures
        sum_powers(s, k) >= s.len() * power_term(lo, k),
    decreases s.len(),
{
    if s.len() > 0 {
        assert forall|i: int| 0 <= i < s.drop_last().len() implies lo <= #[trigger] s.drop_last()[i] by {
            assert(s.drop_last()[i] == s[i]);
        }
        lemma_sum_powers_at_least(s.drop_last(), k, lo);
        lemma_power_term_monotone(lo, s.last() as nat, k);
        let p = power_term(lo, k);
        assert((s.len() - 1) * p + p == s.len() * p) by (nonlinear_arith);
    }
}

/// With a positive exponent, the generalized mean of a non-empty window is at
/// least the smallest entry of the window.
pub proof fn generalized_mean_at_least_smallest(h: Seq<u64>, window: int, r: int, lo: nat)
    requires
        all_ratios(h),
        r > 0,
        window > 0,
        h.len() > 0,
        forall|i: int| 0 <= i < last_n(h, window).len() ==> lo <= #[trigger] last_n(h, window)[i],
    ensures
        generalized_mean(h, window, r) >= lo,
{
    let w = last_n(h, window);
    let k = r as nat;
    let n = w.len();
    assert(n > 0);
    assert(lo <= w[0] <= SCALE);
    lemma_sum_powers_at_least(w, k, lo);
    let p = root_pred(sum_powers(w, k), n, k);
    assert(p(lo));
    lemma_largest_at_most_is_max(p, SCALE as nat, lo);
}

fn power_term_of(b: u64, k: u64) -> (r: u128)
    requires
        b <= SQUARE_SCALE,
    ensures
        r == power_term(b as nat, k as nat),
        r <= POWER_CAP,
{
    let mut p: u128 = SCALE as u128;
    let mut i: u64 = 0;
    while i < k
        invariant
            i <= k,
            b <= SQUARE_SCALE,
            p == power_term(b as nat, i as nat),
            p <= POWER_CAP,
        decreases k - i,
    {
        assert(p * b <= POWER_CAP * SQUARE_SCALE) by (nonlinear_arith)
            requires
                p <= POWER_CAP,
                b <= SQUARE_SCALE,
        ;
        p = p * (b as u128) / (SCALE as u128);
        if p > POWER_CAP {
            p = POWER_CAP;
        }
        i = i + 1;
    }
    p
}

fn power_root_of(total: u128, n: u64, k: u64, hi: u64) -> (r: u64)
    requires
        n > 0,
        k > 0,
        total <= n * POWER_CAP,
        hi <= SQUARE_SCALE,
    ensures
        r == power_root(total as nat, n as nat, k as nat, hi as nat),
        r <= hi,
{
    let ghost p = root_pred(total as nat, n as nat, k as nat);
    proof {
        lemma_root_pred_closed(total as nat, n as nat, k as nat);
        lemma_power_term_bound(0, k as nat);
        assert(p(0));
        assert((n as int) * POWER_CAP <= u128::MAX) by (nonlinear_arith)
            requires
                n <= u64::MAX,
        ;
    }
    let top = power_term_of(hi, k);
    assert(n * top <= n * POWER_CAP) by (nonlinear_arith)
        requires
            top <= POWER_CAP,
    ;
    if (n as u128) * top <= total {
        proof {
            lemma_largest_at_most(p, hi as nat, hi as nat);
        }
        return hi;
    }
    let mut lo: u64 = 0;
    let mut bad: u64 = hi;
    while bad - lo > 1
        invariant
            lo < bad <= hi <= SQUARE_SCALE,
            n > 0,
            (n as int) * POWER_CAP <= u128::MAX,
            p == root_pred(total as nat, n as nat, k as nat),
            p(lo as nat),
            !p(bad as nat),
        decreases bad - lo,
    {
        let mid = lo + (bad - lo) / 2;
        let t = power_term_of(mid, k);
        assert(n * t <= n * POWER_CAP) by (nonlinear_arith)
            requires
                t <= POWER_CAP,
        ;
        if (n as u128) * t <= total {
            lo = mid;
        } else {
            bad = mid;
        }
    }
    proof {
        lemma_largest_at_most(p, hi as nat, lo as nat);
    }
    lo
}

proof fn lemma_negative_root_floor(w: Seq<u64>, k: nat)
    requires
        all_ratios(w),
        !has_zero(w),
        w.len() > 0,
    ensures
        power_root(sum_powers(reciprocals(w), k), w.len(), k, SQUARE_SCALE as nat) >= SCALE,
{
    let rw = reciprocals(w);
    assert forall|j: int| 0 <= j < rw.len() implies #[trigger] rw[j] >= SCALE by {
        assert(w[j] != 0);
        assert((SQUARE_SCALE as int) / (w[j] as int) >= SCALE) by (nonlinear_arith)
            requires
                0 < w[j] <= SCALE,
        ;
    }
    lemma_sum_powers_floor(rw, k);
    lemma_power_term_bound(SCALE as nat, k);
    let p = root_pred(sum_powers(rw, k), w.len(), k);
    assert(p(SCALE as nat));
    lemma_largest_at_most_is_max(p, SQUARE_SCALE as nat, SCALE as nat);
}

/// The generalized mean of ratios is a ratio.
pub proof fn lemma_generalized_mean_range(h: Seq<u64>, window: int, r: int)
    requires
        all_ratios(h),
    ensures
        0 <= generalized_mean(h, window, r) <= SCALE,
{
    let w = last_n(h, window);
    if window > 0 && w.len() > 0 && r != 0 {
        assert(all_ratios(w));
        if r > 0 {
            lemma_largest_at_most_props(root_pred(sum_powers(w, r as nat), w.len(), r as nat), SCALE as nat);
        } else if !has_zero(w) {
            lemma_negative_root_floor(w, (-r) as nat);
            let z = power_root(sum_powers(reciprocals(w), (-r) as nat), w.len(), (-r) as nat, SQUARE_SCALE as nat);
            assert((SQUARE_SCALE as int) / (z as int) <= SCALE) by (nonlinear_arith)
                requires
                    z >= SCALE,
            ;
        }
    }
}

/// Generalized mean of the last `window` entries of a sliding window.
#[derive(Debug, Clone, Copy)]
pub struct GeneralizedMeanPolicy {
    pub window: usize,
    pub exponent: i32,
}

impl GeneralizedMeanPolicy {
    pub fn new(window: usize, exponent: i32) -> (r: Self)
        requires
            exponent != 0,
        ensures
            r.window == window,
            r.exponent == exponent,
    {
        GeneralizedMeanPolicy { window, exponent }
    }

    pub fn decide(&self, history: &[u64]) -> (r: u64)
        requires
            all_ratios(history@),
        ensures
            r == generalized_mean(history@, self.window as int, self.exponent as int),
            r <= SCALE,
    {
        let n = history.len();
        if self.window == 0 || n == 0 || self.exponent == 0 {
            return 0;
        }
        let start = if n > self.window { n - self.window } else { 0 };
        let ghost w = history@.subrange(start as int, n as int);
        assert(w =~= last_n(history@, self.window as int));
        let len = (n - start) as u64;
        if self.exponent > 0 {
            let k = self.exponent as u64;
            let mut acc: u128 = 0;
            let mut i: usize = start;
            while i < n
                invariant
                    start <= i <= n == history@.len(),
                    w == history@.subrange(start as int, n as int),
                    all_ratios(history@),
                    acc == sum_powers(history@.subrange(start as int, i as int), k as nat),
                decreases n - i,
            {
                proof {
                    let s = history@.subrange(start as int, i as int + 1);
                    assert(s.drop_last() =~= history@.subrange(start as int, i as int));
                    lemma_sum_powers_bound(s, k as nat);
                    assert(s.len() * POWER_CAP <= u128::MAX) by (nonlinear_arith)
                        requires
                            s.len() <= usize::MAX,
                    ;
                }
                acc = acc + power_term_of(history[i], k);
                i = i + 1;
            }
            proof {
                assert(history@.subrange(start as int, n as int) == w);
                lemma_sum_powers_bound(w, k as nat);
            }
            power_root_of(acc, len, k, SCALE)
        } else {
            let k: u64 = if self.exponent == i32::MIN {
                2147483648
            } else {
                (-self.exponent) as u64
            };
            let ghost rw = reciprocals(w);
            let mut acc: u128 = 0;
            let mut i: usize = start;
            while i < n
                invariant
                    start <= i <= n == history@.len(),
                    w == history@.subrange(start as int, n as int),
                    rw == reciprocals(w),
                    w == last_n(history@, self.window as int),
                    self.window > 0,
                    self.exponent < 0,
                    acc == sum_powers(rw.subrange(0, i - start), k as nat),
                    forall|j: int| 0 <= j < i - start ==> w[j] != 0,
                decreases n - i,
            {
                let b = history[i];
                if b == 0 {
                    assert(w[i - start] == 0);
                    assert(has_zero(w));
                    return 0;
                }
                proof {
                    let s = rw.subrange(0, i - start + 1);
                    assert(s.drop_last() =~= rw.subrange(0, i - start));
                    lemma_sum_powers_bound(s, k as nat);
                    assert(s.len() * POWER_CAP <= u128::MAX) by (nonlinear_arith)
                        requires
                            s.len() <= usize::MAX,
                    ;
                }
                acc = acc + power_term_of(SQUARE_SCALE / b, k);
                i = i + 1;
            }
            proof {
                assert(rw.subrange(0, n - start) =~= rw);
                lemma_sum_powers_bound(rw, k as nat);
                assert(!has_zero(w));
                assert(all_ratios(w));
            }
            let z = power_root_of(acc, len, k, SQUARE_SCALE);
            proof {
                lemma_negative_root_floor(w, k as nat);
            }
            assert(SQUARE_SCALE / z <= SCALE) by (nonlinear_arith)
                requires
                    z >= SCALE,
            ;
            SQUARE_SCALE / z
        }
    }
}

/// The root of a sum of first powers is the mean, rounded down.
proof fn lemma_first_power_root(s: Seq<u64>, hi: nat)
    requires
        s.len() > 0,
        forall|i: int| 0 <= i < s.len() ==> s[i] <= hi,
        hi <= SQUARE_SCALE,
    ensures
        power_root(sum(s) as nat, s.len(), 1, hi) == mean(s),
{
    let n = s.len();
    let t = sum(s);
    lemma_mean_bound(s, hi as u64);
    lemma_sum_bound(s, hi as u64);
    let m = mean(s) as nat;
    let p = root_pred(t as nat, n, 1);
    lemma_root_pred_closed(t as nat, n, 1);
    assert forall|y: nat| y <= SQUARE_SCALE implies power_term(y, 1) == y by {
        assert(power_term(y, 0) == SCALE);
        assert((SCALE as nat) * y / (SCALE as nat) == y) by (nonlinear_arith);
    }
    assert(n * m <= t) by (nonlinear_arith)
        requires
            m == t / (n as int),
            n > 0,
            t >= 0,
    ;
    assert(p(m));
    if m < hi {
        assert(n * (m + 1) > t) by (nonlinear_arith)
            requires
                m == t / (n as int),
                n > 0,
                t >= 0,
        ;
        assert(!p(m + 1));
    }
    lemma_largest_at_most(p, hi, m);
}

/// With exponent 1 the generalized mean is the moving average over the same window.
pub proof fn generalized_mean_of_first_power(h: Seq<u64>, window: int)
    requires
        all_ratios(h),
    ensures
        generalized_mean(h, window, 1) == moving_average(h, window),
{
    let w = last_n(h, window);
    if window > 0 && w.len() > 0 {
        assert(all_ratios(w));
        lemma_sum_powers_one(w);
        lemma_first_power_root(w, SCALE as nat);
    }
}

/// With exponent -1 the generalized mean is the harmonic mean of the window,
/// for a history of strictly positive ratios.
pub proof fn generalized_mean_of_minus_first_power(h: Seq<u64>, window: int)
    requires
        all_ratios(h),
        forall|i: int| 0 <= i < h.len() ==> h[i] > 0,
        window > 0,
        h.len() > 0,
    ensures
        generalized_mean(h, window, -1) == harmonic_mean(last_n(h, window)),
{
    let w = last_n(h, window);
    let rw = reciprocals(w);
    assert(all_ratios(w));
    assert(forall|i: int| 0 <= i < w.len() ==> w[i] > 0);
    assert(!has_zero(w));
    assert forall|i: int| 0 <= i < rw.len() implies SCALE <= #[trigger] rw[i] <= SQUARE_SCALE by {
        assert((SQUARE_SCALE as int) / (w[i] as int) >= SCALE) by (nonlinear_arith)
            requires
                0 < w[i] <= SCALE,
        ;
        assert((SQUARE_SCALE as int) / (w[i] as int) <= SQUARE_SCALE) by (nonlinear_arith)
            requires
                0 < w[i],
        ;
    }
    lemma_sum_powers_one_any(rw);
    lemma_first_power_root(rw, SQUARE_SCALE as nat);
    lemma_sum_powers_floor(rw, 1);
    lemma_mean_bound(rw, SQUARE_SCALE);
    let n = rw.len() as int;
    assert(sum(rw) / n >= SCALE) by (nonlinear_arith)
        requires
            sum(rw) >= n * SCALE,
            n > 0,
    ;
}

} // verus!
