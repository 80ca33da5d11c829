//! Fixed-point ratios: a ratio `x` in `[0, 1]` is held as the integer `x * SCALE`.

use vstd::prelude::*;

verus! {

/// The fixed-point unit: `SCALE` stands for the ratio 1.0.
pub const SCALE: u64 = 1000000;

/// Sum of a sequence of fixed-point values.
pub open spec fn sum(s: Seq<u64>) -> int
    decreases s.len(),
{
    if s.len() == 0 {
        0
    } else {
        sum(s.drop_last()) + s.last()
    }
}

/// Arithmetic mean, rounded down; 0 for the empty sequence.
pub open spec fn mean(s: Seq<u64>) -> int {
    if s.len() == 0 {
        0
    } else {
        sum(s) / (s.len() as int)
    }
}

/// Every value is a ratio in `[0, 1]`.
pub open spec fn all_ratios(s: Seq<u64>) -> bool {
    forall|i: int| 0 <= i < s.len() ==> s[i] <= SCALE
}

/// The last `w` values of `s` (all of `s` when it is shorter).
pub open spec fn last_n(s: Seq<u64>, w: int) -> Seq<u64> {
    if w >= s.len() {
        s
    } else {
        s.subrange(s.len() - w, s.len() as int)
    }
}

pub open spec fn abs_diff(a: u64, b: u64) -> u64 {
    if a >= b {
        (a - b) as u64
    } else {
        (b - a) as u64
    }
}

/// The largest `y <= k` with `p(y)`, or 0 when there is none.
pub open spec fn largest_at_most(p: spec_fn(nat) -> bool, k: nat) -> nat
    decreases k,
{
    if p(k) || k == 0 {
        k
    } else {
        largest_at_most(p, (k - 1) as nat)
    }
}

/// `p` holds below any point where it holds.
pub open spec fn downward_closed(p: spec_fn(nat) -> bool) -> bool {
    forall|a: nat, b: nat| a <= b && #[trigger] p(b) ==> #[trigger] p(a)
}

/// The floor of the square root of `x`.
pub open spec fn floor_sqrt(x: nat) -> nat {
    largest_at_most(|y: nat| y * y <= x, x)
}

pub proof fn lemma_largest_at_most(p: spec_fn(nat) -> bool, k: nat, r: nat)
    requires
        r <= k,
        p(r),
        r < k ==> !p(r + 1),
        downward_closed(p),
    ensures
        largest_at_most(p, k) == r,
    decreases k,
{
    if k > r {
        if p(k) {
            assert(p(r + 1));
        }
        lemma_largest_at_most(p, (k - 1) as nat, r);
    }
}

pub proof fn lemma_largest_at_most_props(p: spec_fn(nat) -> bool, k: nat)
    ensures
        largest_at_most(p, k) <= k,
        largest_at_most(p, k) == 0 || p(largest_at_most(p, k)),
    decreases k,
{
    if !p(k) && k > 0 {
        lemma_largest_at_most_props(p, (k - 1) as nat);
    }
}

pub proof fn lemma_floor_sqrt_bound(x: nat, b: nat)
    requires
        x <= b * b,
    ensures
        floor_sqrt(x) <= b,
{
    let p = |y: nat| y * y <= x;
    lemma_largest_at_most_props(p, x);
    let s = floor_sqrt(x);
    if s > 0 {
        assert(s <= b) by (nonlinear_arith)
            requires
                s * s <= b * b,
        ;
    }
}

pub proof fn lemma_largest_at_most_is_max(p: spec_fn(nat) -> bool, k: nat, y: nat)
    requires
        y <= k,
        p(y),
    ensures
        y <= largest_at_most(p, k),
    decreases k,
{
    if !p(k) && k > 0 {
        lemma_largest_at_most_is_max(p, (k - 1) as nat, y);
    }
}

pub proof fn lemma_sum_bound(s: Seq<u64>, b: u64)
    requires
        forall|i: int| 0 <= i < s.len() ==> s[i] <= b,
    ensures
        0 <= sum(s) <= s.len() * b,
    decreases s.len(),
{
    if s.len() > 0 {
        lemma_sum_bound(s.drop_last(), b);
        assert((s.len() - 1) * b + b == s.len() * b) by (nonlinear_arith);
    }
}

pub proof fn lemma_mean_bound(s: Seq<u64>, b: u64)
    requires
        forall|i: int| 0 <= i < s.len() ==> s[i] <= b,
    ensures
        0 <= mean(s) <= b,
{
    lemma_sum_bound(s, b);
    if s.len() > 0 {
        let n = s.len() as int;
        let t = sum(s);
        assert(t / n <= b) by (nonlinear_arith)
            requires
                0 <= t <= n * b,
                n > 0,
        ;
        assert(t / n >= 0) by (nonlinear_arith)
            requires
                0 <= t,
                n > 0,
        ;
    }
}

/// Sum of `h[lo..hi]`.
pub fn sum_range(h: &[u64], lo: usize, hi: usize) -> (r: u128)
    requires
        lo <= hi <= h@.len(),
    ensures
        r == sum(h@.subrange(lo as int, hi as int)),
{
    let mut acc: u128 = 0;
    let mut i: usize = lo;
    while i < hi
        invariant
            lo <= i <= hi <= h@.len(),
            acc == sum(h@.subrange(lo as int, i as int)),
        decreases hi - i,
    {
        proof {
            let s = h@.subrange(lo as int, i as int + 1);
            assert(s.drop_last() =~= h@.subrange(lo as int, i as int));
            lemma_sum_bound(h@.subrange(lo as int, i as int), u64::MAX);
            assert((i - lo) * (u64::MAX as int) + u64::MAX <= u128::MAX) by (nonlinear_arith)
                requires
                    i - lo <= usize::MAX,
            ;
        }
        acc = acc + h[i] as u128;
        i = i + 1;
    }
    acc
}

/// Mean of `h[lo..hi]`, rounded down; 0 when the range is empty.
pub fn mean_range(h: &[u64], lo: usize, hi: usize) -> (r: u64)
    requires
        lo <= hi <= h@.len(),
    ensures
        r == mean(h@.subrange(lo as int, hi as int)),
{
    if lo == hi {
        return 0;
    }
    let t = sum_range(h, lo, hi);
    proof {
        lemma_mean_bound(h@.subrange(lo as int, hi as int), u64::MAX);
    }
    (t / ((hi - lo) as u128)) as u64
}

/// Floor of the square root, by bisection.
pub fn isqrt(x: u64) -> (r: u64)
    ensures
        r == floor_sqrt(x as nat),
        (r as int) * (r as int) <= x,
        x < (r as int + 1) * (r as int + 1),
{
    // invariant: lo * lo <= x < hi * hi
    let mut lo: u64 = 0;
    let mut hi: u64 = if x < 4294967295 { x + 1 } else { 4294967296 };
    assert((hi as int) * (hi as int) > x) by (nonlinear_arith)
        requires
            hi == (if x < 4294967295 { x + 1 } else { 4294967296 }),
            x <= u64::MAX,
    ;
    while hi - lo > 1
        invariant
            lo < hi <= 4294967296,
            (lo as int) * (lo as int) <= x,
            (hi as int) * (hi as int) > x,
        decreases hi - lo,
    {
        let mid = lo + (hi - lo) / 2;
        assert((mid as int) * (mid as int) <= 4294967296 * 4294967296) by (nonlinear_arith)
            requires
                mid <= 4294967296,
        ;
        if (mid as u128) * (mid as u128) <= x as u128 {
            lo = mid;
        } else {
            hi = mid;
        }
    }
    proof {
        let p = |y: nat| y * y <= x;
        assert(downward_closed(p)) by {
            assert forall|a: nat, b: nat| a <= b && #[trigger] p(b) implies #[trigger] p(a) by {
                assert(a * a <= b * b) by (nonlinear_arith)
                    requires
                        a <= b,
                ;
            }
        }
        assert(lo <= x) by (nonlinear_arith)
            requires
                (lo as int) * (lo as int) <= x,
        ;
        assert(hi == lo + 1);
        lemma_largest_at_most(p, x as nat, lo as nat);
    }
    lo
}

} // verus!
