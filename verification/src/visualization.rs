//! The computable part of the presentation layer: a ten-bucket histogram of
//! the per-sample effect estimates.  Labeling and JSON rendering stay with
//! the host around the engine.

use vstd::prelude::*;
use crate::arith::tdiv;
use crate::num::{MAX_ABS, SCALE};

verus! {

/// Number of histogram buckets.
pub const N_BINS: usize = 10;

/// Smallest value of a non-empty sequence.
pub open spec fn min_of(s: Seq<i64>) -> int
    recommends
        s.len() >= 1,
    decreases s.len(),
{
    if s.len() <= 1 {
        s[0] as int
    } else {
        let m = min_of(s.drop_last());
        if s.last() < m {
            s.last() as int
        } else {
            m
        }
    }
}

/// Largest value of a non-empty sequence.
pub open spec fn max_of(s: Seq<i64>) -> int
    recommends
        s.len() >= 1,
    decreases s.len(),
{
    if s.len() <= 1 {
        s[0] as int
    } else {
        let m = max_of(s.drop_last());
        if s.last() > m {
            s.last() as int
        } else {
            m
        }
    }
}

/// The bucket width over the value range: a tenth of the spread, or one
/// whole unit when every value is the same.
pub open spec fn spec_bin_width(mn: int, mx: int) -> int {
    if mx == mn {
        SCALE as int
    } else {
        tdiv(mx - mn, N_BINS as int)
    }
}

/// The bucket a value falls into: its offset from the minimum divided by
/// the bucket width, clamped into range; everything lands in the first
/// bucket when the width truncated to zero.
pub open spec fn spec_bin_of(p: int, mn: int, bw: int) -> int {
    if bw == 0 {
        0
    } else {
        let b = tdiv(p - mn, bw);
        if b >= N_BINS {
            (N_BINS - 1) as int
        } else {
            b
        }
    }
}

/// How many of the values fall into bucket `k`.
pub open spec fn count_in_bin(s: Seq<i64>, mn: int, bw: int, k: int) -> int
    decreases s.len(),
{
    if s.len() == 0 {
        0
    } else {
        count_in_bin(s.drop_last(), mn, bw, k) + if spec_bin_of(s.last() as int, mn, bw) == k {
            1int
        } else {
            0int
        }
    }
}

/// Every value lies between the minimum and the maximum, and both are
/// values of the sequence's range.
proof fn lemma_min_max(s: Seq<i64>, lo: int, hi: int)
    requires
        s.len() >= 1,
        forall|i: int| 0 <= i < s.len() ==> lo <= #[trigger] s[i] <= hi,
    ensures
        forall|i: int| 0 <= i < s.len() ==> min_of(s) <= #[trigger] s[i] <= max_of(s),
        lo <= min_of(s) <= hi,
        lo <= max_of(s) <= hi,
        min_of(s) <= max_of(s),
    decreases s.len(),
{
    if s.len() > 1 {
        lemma_min_max(s.drop_last(), lo, hi);
        assert(forall|i: int|
            0 <= i < s.len() - 1 ==> (#[trigger] s[i]) == s.drop_last()[i]);
    }
}

/// Prefix step for the minimum.
proof fn lemma_minmax_take_step(s: Seq<i64>, i: int)
    requires
        1 <= i < s.len(),
    ensures
        min_of(s.take(i + 1)) == (if (s[i] as int) < min_of(s.take(i)) {
            s[i] as int
        } else {
            min_of(s.take(i))
        }),
        max_of(s.take(i + 1)) == (if (s[i] as int) > max_of(s.take(i)) {
            s[i] as int
        } else {
            max_of(s.take(i))
        }),
{
    assert(s.take(i + 1).drop_last() =~= s.take(i));
}

/// Prefix step for the bucket counts.
proof fn lemma_count_take_step(s: Seq<i64>, mn: int, bw: int, k: int, i: int)
    requires
        0 <= i < s.len(),
    ensures
        count_in_bin(s.take(i + 1), mn, bw, k) == count_in_bin(s.take(i), mn, bw, k) + (
        if spec_bin_of(s[i] as int, mn, bw) == k {
            1int
        } else {
            0int
        }),
{
    assert(s.take(i + 1).drop_last() =~= s.take(i));
}

/// Bin the effect estimates into [`N_BINS`] equal-width buckets over their
/// range: the left edge of each bucket and the number of estimates that
/// fall into it.
pub fn effect_histogram(preds: &Vec<i64>) -> (r: (Vec<i64>, Vec<u64>))
    requires
        preds@.len() >= 1,
        forall|i: int| 0 <= i < preds@.len() ==> -2 * MAX_ABS <= #[trigger] preds@[i] <= 2
            * MAX_ABS,
    ensures
        ({
            let mn = min_of(preds@);
            let bw = spec_bin_width(mn, max_of(preds@));
            &&& r.0@.len() == N_BINS
            &&& forall|i: int| 0 <= i < N_BINS ==> (#[trigger] r.0@[i]) as int == mn + i * bw
            &&& r.1@.len() == N_BINS
            &&& forall|k: int|
                0 <= k < N_BINS ==> (#[trigger] r.1@[k]) as int == count_in_bin(preds@, mn, bw, k)
        }),
{
    let n = preds.len();
    let mut mn = preds[0];
    let mut mx = preds[0];
    proof {
        assert(preds@.take(1) =~= seq![preds@[0]]);
    }
    for i in 1..n
        invariant
            n == preds@.len(),
            1 <= i <= n,
            forall|q: int| 0 <= q < n ==> -2 * MAX_ABS <= #[trigger] preds@[q] <= 2 * MAX_ABS,
            mn as int == min_of(preds@.take(i as int)),
            mx as int == max_of(preds@.take(i as int)),
            -2 * MAX_ABS <= mn <= 2 * MAX_ABS,
            -2 * MAX_ABS <= mx <= 2 * MAX_ABS,
    {
        proof {
            lemma_minmax_take_step(preds@, i as int);
        }
        let p = preds[i];
        if p < mn {
            mn = p;
        }
        if p > mx {
            mx = p;
        }
    }
    proof {
        assert(preds@.take(n as int) =~= preds@);
        lemma_min_max(preds@, -2 * MAX_ABS, 2 * MAX_ABS);
    }
    let bw: i64 = if mx == mn {
        SCALE
    } else {
        (mx - mn) / (N_BINS as i64)
    };
    proof {
        if mx != mn {
            crate::arith::lemma_tdiv_nonneg((mx - mn) as int, N_BINS as int);
        }
    }
    let mut bins: Vec<i64> = Vec::new();
    for i in 0..N_BINS
        invariant
            bins@.len() == i,
            bw as int == spec_bin_width(mn as int, mx as int),
            -2 * MAX_ABS <= mn <= mx <= 2 * MAX_ABS,
            0 <= bw <= 4 * MAX_ABS,
            forall|q: int| 0 <= q < i ==> (#[trigger] bins@[q]) as int == mn + q * bw,
    {
        proof {
            assert(0 <= (i as int) * (bw as int) <= 9 * (4 * MAX_ABS)) by (nonlinear_arith)
                requires
                    0 <= i <= 9 && 0 <= bw <= 4 * MAX_ABS,
            ;
        }
        bins.push(mn + (i as i64) * bw);
    }
    let mut counts: Vec<u64> = Vec::new();
    for k in 0..N_BINS
        invariant
            counts@.len() == k,
            forall|q: int| 0 <= q < k ==> (#[trigger] counts@[q]) == 0,
    {
        counts.push(0);
    }
    for i in 0..n
        invariant
            n == preds@.len(),
            forall|q: int| 0 <= q < n ==> -2 * MAX_ABS <= #[trigger] preds@[q] <= 2 * MAX_ABS,
            bw as int == spec_bin_width(mn as int, mx as int),
            -2 * MAX_ABS <= mn <= mx <= 2 * MAX_ABS,
            0 <= bw <= 4 * MAX_ABS,
            forall|q: int| 0 <= q < n ==> mn <= #[trigger] preds@[q] <= mx,
            counts@.len() == N_BINS,
            forall|k: int|
                0 <= k < N_BINS ==> (#[trigger] counts@[k]) as int == count_in_bin(
                    preds@.take(i as int),
                    mn as int,
                    bw as int,
                    k,
                ),
            forall|k: int| 0 <= k < N_BINS ==> (#[trigger] counts@[k]) <= i,
    {
        let p = preds[i];
        let diff = p - mn;
        let b: usize = if bw == 0 {
            0
        } else {
            proof {
                crate::arith::lemma_tdiv_nonneg(diff as int, bw as int);
            }
            let q = diff / bw;
            if q >= N_BINS as i64 {
                N_BINS - 1
            } else {
                q as usize
            }
        };
        proof {
            assert(b as int == spec_bin_of(p as int, mn as int, bw as int));
            assert forall|k: int| 0 <= k < N_BINS implies count_in_bin(
                preds@.take(i as int + 1),
                mn as int,
                bw as int,
                k,
            ) == count_in_bin(preds@.take(i as int), mn as int, bw as int, k) + (
            if spec_bin_of(preds@[i as int] as int, mn as int, bw as int) == k {
                1int
            } else {
                0int
            }) by {
                lemma_count_take_step(preds@, mn as int, bw as int, k, i as int);
            }
        }
        let cur = counts[b];
        counts[b] = cur + 1;
    }
    proof {
        assert(preds@.take(n as int) =~= preds@);
    }
    (bins, counts)
}

} // verus!
