//! Truncating division over `int`, mirroring what `/` computes on the signed
//! machine integers the engine uses, together with the bounds the estimator
//! proofs need.

use vstd::prelude::*;
use vstd::arithmetic::div_mod::{
    lemma_div_is_ordered, lemma_div_pos_is_pos, lemma_fundamental_div_mod,
};

verus! {

/// Division rounding toward zero, as `/` behaves on `i64` and `i128`.
///
/// For non-negative operands this is plain Euclidean division; for a negative
/// dividend the quotient of the magnitudes is negated.
pub open spec fn tdiv(a: int, b: int) -> int
    recommends
        b > 0,
{
    if a >= 0 {
        a / b
    } else {
        -((-a) / b)
    }
}

/// Dividing zero gives zero.
pub proof fn lemma_tdiv_zero(b: int)
    requires
        b > 0,
    ensures
        tdiv(0, b) == 0,
{
    vstd::arithmetic::div_mod::lemma_div_of0(b);
}

/// Dividing by one gives the dividend back.
pub proof fn lemma_tdiv_by_one(a: int)
    ensures
        tdiv(a, 1) == a,
{
    vstd::arithmetic::div_mod::lemma_div_basics(a);
    vstd::arithmetic::div_mod::lemma_div_basics(-a);
}

/// An exact multiple divides without remainder, whatever its sign.
pub proof fn lemma_tdiv_exact(c: int, k: int)
    requires
        k > 0,
    ensures
        tdiv(c * k, k) == c,
{
    if c >= 0 {
        vstd::arithmetic::div_mod::lemma_div_by_multiple(c, k);
    } else {
        vstd::arithmetic::div_mod::lemma_div_by_multiple(-c, k);
        assert((-c) * k == -(c * k)) by (nonlinear_arith);
    }
}

/// A non-negative dividend gives a non-negative quotient, no larger than the
/// dividend.
pub proof fn lemma_tdiv_nonneg(a: int, b: int)
    requires
        a >= 0,
        b > 0,
    ensures
        0 <= tdiv(a, b) <= a,
{
    lemma_div_pos_is_pos(a, b);
    vstd::arithmetic::div_mod::lemma_div_nonincreasing(a, b);
}

/// Truncating division is monotone on non-negative dividends.
pub proof fn lemma_tdiv_ordered(a: int, b: int, d: int)
    requires
        0 <= a <= b,
        d > 0,
    ensures
        tdiv(a, d) <= tdiv(b, d),
{
    lemma_div_is_ordered(a, b, d);
}

/// A dividend bounded by `d * bound` in magnitude has a quotient bounded by
/// `bound`.
pub proof fn lemma_tdiv_bound(a: int, d: int, bound: int)
    requires
        d > 0,
        bound >= 0,
        -(d * bound) <= a <= d * bound,
    ensures
        -bound <= tdiv(a, d) <= bound,
{
    lemma_tdiv_exact(bound, d);
    assert(bound * d == d * bound) by (nonlinear_arith);
    if a >= 0 {
        lemma_div_is_ordered(a, d * bound, d);
        lemma_div_pos_is_pos(a, d);
    } else {
        lemma_div_is_ordered(-a, d * bound, d);
        lemma_div_pos_is_pos(-a, d);
    }
}

/// What the fundamental division equation says of `tdiv` for non-negative
/// operands: `a == d * tdiv(a, d) + r` with `0 <= r < d`.
pub proof fn lemma_tdiv_fundamental_nonneg(a: int, d: int)
    requires
        a >= 0,
        d > 0,
    ensures
        a == d * tdiv(a, d) + (a % d),
        0 <= a % d < d,
{
    lemma_fundamental_div_mod(a, d);
    vstd::arithmetic::div_mod::lemma_mod_bound(a, d);
}

/// Sum of a sequence of `i128` values, as an unbounded integer.
pub open spec fn sum_i128(s: Seq<i128>) -> int
    decreases s.len(),
{
    if s.len() == 0 {
        0
    } else {
        sum_i128(s.drop_last()) + s.last()
    }
}

/// Sum of a sequence of `i64` values, as an unbounded integer.
pub open spec fn sum_i64(s: Seq<i64>) -> int
    decreases s.len(),
{
    if s.len() == 0 {
        0
    } else {
        sum_i64(s.drop_last()) + s.last()
    }
}

/// Sum of a sequence of unbounded integers.
pub open spec fn sum_ints(s: Seq<int>) -> int
    decreases s.len(),
{
    if s.len() == 0 {
        0
    } else {
        sum_ints(s.drop_last()) + s.last()
    }
}

/// Extending a prefix sum by one element.
pub proof fn lemma_sum_ints_take_step(s: Seq<int>, k: int)
    requires
        0 <= k < s.len(),
    ensures
        sum_ints(s.take(k + 1)) == sum_ints(s.take(k)) + s[k],
{
    assert(s.take(k + 1).drop_last() =~= s.take(k));
}

/// Two pointwise-equal sequences have the same sum.
pub proof fn lemma_sum_i64_matches(s: Seq<i64>, t: Seq<int>)
    requires
        s.len() == t.len(),
        forall|i: int| 0 <= i < s.len() ==> (#[trigger] s[i]) as int == t[i],
    ensures
        sum_i64(s) == sum_ints(t),
    decreases s.len(),
{
    if s.len() > 0 {
        assert(forall|i: int|
            0 <= i < s.drop_last().len() ==> (#[trigger] s.drop_last()[i]) as int
                == t.drop_last()[i]);
        lemma_sum_i64_matches(s.drop_last(), t.drop_last());
    }
}

/// Extending a prefix sum by one element.
pub proof fn lemma_sum_i128_take_step(s: Seq<i128>, k: int)
    requires
        0 <= k < s.len(),
    ensures
        sum_i128(s.take(k + 1)) == sum_i128(s.take(k)) + s[k],
{
    assert(s.take(k + 1).drop_last() =~= s.take(k));
}

/// Extending a prefix sum by one element.
pub proof fn lemma_sum_i64_take_step(s: Seq<i64>, k: int)
    requires
        0 <= k < s.len(),
    ensures
        sum_i64(s.take(k + 1)) == sum_i64(s.take(k)) + s[k],
{
    assert(s.take(k + 1).drop_last() =~= s.take(k));
}

/// A constant sequence sums to its length times the constant.
pub proof fn lemma_sum_i64_constant(s: Seq<i64>, c: i64)
    requires
        forall|i: int| 0 <= i < s.len() ==> (#[trigger] s[i]) == c,
    ensures
        sum_i64(s) == s.len() * c,
    decreases s.len(),
{
    if s.len() > 0 {
        lemma_sum_i64_constant(s.drop_last(), c);
        assert((s.len() - 1) * c + c == s.len() * c) by (nonlinear_arith);
    }
}

/// Updating one entry moves the sum by the difference.
pub proof fn lemma_sum_i128_update(s: Seq<i128>, f: int, v: i128)
    requires
        0 <= f < s.len(),
    ensures
        sum_i128(s.update(f, v)) == sum_i128(s) - s[f] + v,
    decreases s.len(),
{
    if f == s.len() - 1 {
        assert(s.update(f, v).drop_last() =~= s.drop_last());
    } else {
        assert(s.update(f, v).drop_last() =~= s.drop_last().update(f, v));
        lemma_sum_i128_update(s.drop_last(), f, v);
    }
}

/// A sequence of non-negative values has a non-negative sum.
pub proof fn lemma_sum_i128_nonneg(s: Seq<i128>)
    requires
        forall|i: int| 0 <= i < s.len() ==> #[trigger] s[i] >= 0,
    ensures
        sum_i128(s) >= 0,
    decreases s.len(),
{
    if s.len() > 0 {
        lemma_sum_i128_nonneg(s.drop_last());
    }
}

/// A sequence of zeros sums to zero.
pub proof fn lemma_sum_i128_zero(s: Seq<i128>)
    requires
        forall|i: int| 0 <= i < s.len() ==> #[trigger] s[i] == 0,
    ensures
        sum_i128(s) == 0,
    decreases s.len(),
{
    if s.len() > 0 {
        lemma_sum_i128_zero(s.drop_last());
    }
}

/// A prefix of a sequence of non-negative values sums to at most the whole.
pub proof fn lemma_sum_i128_take_le(s: Seq<i128>, j: int)
    requires
        forall|i: int| 0 <= i < s.len() ==> #[trigger] s[i] >= 0,
        0 <= j <= s.len(),
    ensures
        sum_i128(s.take(j)) <= sum_i128(s),
    decreases s.len() - j,
{
    if j < s.len() {
        lemma_sum_i128_take_step(s, j);
        lemma_sum_i128_take_le(s, j + 1);
    } else {
        assert(s.take(j) =~= s);
    }
}

/// In a sequence of non-negative values, every entry is at most the sum.
pub proof fn lemma_sum_i128_entry_bound(s: Seq<i128>, f: int)
    requires
        forall|i: int| 0 <= i < s.len() ==> #[trigger] s[i] >= 0,
        0 <= f < s.len(),
    ensures
        s[f] <= sum_i128(s),
    decreases s.len(),
{
    lemma_sum_i128_nonneg(s.drop_last());
    if f < s.len() - 1 {
        lemma_sum_i128_entry_bound(s.drop_last(), f);
    }
}

} // verus!
