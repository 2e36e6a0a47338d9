//! Central tendency and dispersion over integer samples.
//!
//! The arithmetic here is exact: sums and sums of squared deviations are
//! accumulated in 128-bit integers and divisions truncate toward zero, the
//! division the sample's own integer type performs. Every function reports a
//! too-small sample explicitly instead of returning a nonsensical value.

use vstd::prelude::*;
use vstd::arithmetic::div_mod::{lemma_div_is_ordered, lemma_div_multiples_vanish, lemma_div_basics};
use vstd::arithmetic::mul::lemma_mul_inequality;
use crate::sort::{quicksort, sort_spec};
use crate::StatsError;

verus! {

/// Quotient truncated toward zero, the division `/` performs on a machine
/// integer type.
pub open spec fn trunc_div(a: int, n: int) -> int
    recommends
        n > 0,
{
    if a >= 0 {
        a / n
    } else {
        -((-a) / n)
    }
}

/// The sum of the elements of a sample.
pub open spec fn sum_spec(s: Seq<i64>) -> int
    decreases s.len(),
{
    if s.len() == 0 {
        0
    } else {
        sum_spec(s.drop_last()) + s.last() as int
    }
}

/// The arithmetic mean: the sum divided by the number of elements.
pub open spec fn mean_spec(s: Seq<i64>) -> int
    recommends
        s.len() > 0,
{
    trunc_div(sum_spec(s), s.len() as int)
}

/// The least element of a non-empty sample.
pub open spec fn seq_min(s: Seq<i64>) -> int
    recommends
        s.len() > 0,
    decreases s.len(),
{
    if s.len() <= 1 {
        s[0] as int
    } else {
        let m: int = seq_min(s.drop_last());
        if (s.last() as int) < m {
            s.last() as int
        } else {
            m
        }
    }
}

/// The greatest element of a non-empty sample.
pub open spec fn seq_max(s: Seq<i64>) -> int
    recommends
        s.len() > 0,
    decreases s.len(),
{
    if s.len() <= 1 {
        s[0] as int
    } else {
        let m: int = seq_max(s.drop_last());
        if (s.last() as int) > m {
            s.last() as int
        } else {
            m
        }
    }
}

/// The sum of squared deviations of the elements from a center `c`.
pub open spec fn ssd_spec(s: Seq<i64>, c: int) -> int
    decreases s.len(),
{
    if s.len() == 0 {
        0
    } else {
        ssd_spec(s.drop_last(), c) + (s.last() as int - c) * (s.last() as int - c)
    }
}

/// The center a dispersion function measures deviations from: the supplied
/// value when one is given, used verbatim, and the sample mean otherwise.
pub open spec fn center_spec(s: Seq<i64>, c: Option<i64>) -> int {
    match c {
        Some(x) => x as int,
        None => mean_spec(s),
    }
}

/// The median: the middle element of the sorted sample, or the mean of the
/// two middle elements when the length is even.
pub open spec fn median_spec(s: Seq<i64>) -> int
    recommends
        s.len() > 0,
{
    let t = sort_spec(s);
    let n: int = s.len() as int;
    if n % 2 == 1 {
        t[n / 2] as int
    } else {
        trunc_div(t[n / 2 - 1] as int + t[n / 2] as int, 2)
    }
}

/// Truncating division keeps a quotient between any bounds that bracket the
/// dividend as multiples of the divisor.
proof fn lemma_trunc_div_bounds(a: int, n: int, lo: int, hi: int)
    requires
        n > 0,
        n * lo <= a,
        a <= n * hi,
    ensures
        lo <= trunc_div(a, n) <= hi,
{
    if a >= 0 {
        lemma_div_is_ordered(n * lo, a, n);
        lemma_div_is_ordered(a, n * hi, n);
        lemma_div_multiples_vanish(lo, n);
        lemma_div_multiples_vanish(hi, n);
    } else {
        assert(n * (-lo) == -(n * lo)) by (nonlinear_arith);
        assert(n * (-hi) == -(n * hi)) by (nonlinear_arith);
        lemma_div_is_ordered(-a, n * (-lo), n);
        lemma_div_is_ordered(n * (-hi), -a, n);
        lemma_div_multiples_vanish(-lo, n);
        lemma_div_multiples_vanish(-hi, n);
    }
}

/// Every element of a non-empty sample lies between its least and greatest,
/// and both bounds are values of the element type.
proof fn lemma_min_max_basics(s: Seq<i64>)
    requires
        s.len() > 0,
    ensures
        i64::MIN <= seq_min(s),
        seq_max(s) <= i64::MAX,
        seq_min(s) <= seq_max(s),
    decreases s.len(),
{
    if s.len() > 1 {
        lemma_min_max_basics(s.drop_last());
    }
}

/// The sum of a sample lies between its length times its least element and
/// its length times its greatest element.
proof fn lemma_sum_bounds(s: Seq<i64>)
    requires
        s.len() > 0,
    ensures
        s.len() * seq_min(s) <= sum_spec(s),
        sum_spec(s) <= s.len() * seq_max(s),
    decreases s.len(),
{
    let n: int = s.len() as int;
    if s.len() == 1 {
        let t = s.drop_last();
        assert(t.len() == 0);
        assert(sum_spec(t) == 0);
        assert(sum_spec(s) == s[0] as int);
        assert(n * seq_min(s) == seq_min(s)) by (nonlinear_arith)
            requires n == 1;
        assert(n * seq_max(s) == seq_max(s)) by (nonlinear_arith)
            requires n == 1;
    } else {
        let t = s.drop_last();
        lemma_sum_bounds(t);
        assert(sum_spec(s) == sum_spec(t) + s.last() as int);
        assert(seq_min(s) <= seq_min(t) && seq_min(s) <= s.last() as int);
        assert(seq_max(t) <= seq_max(s) && s.last() as int <= seq_max(s));
        lemma_mul_inequality(seq_min(s), seq_min(t), n - 1);
        lemma_mul_inequality(seq_max(t), seq_max(s), n - 1);
        assert(seq_min(s) * (n - 1) <= seq_min(t) * (n - 1));
        assert(seq_max(t) * (n - 1) <= seq_max(s) * (n - 1));
        assert(n * seq_min(s) == seq_min(s) * (n - 1) + seq_min(s)) by (nonlinear_arith);
        assert(n * seq_max(s) == seq_max(s) * (n - 1) + seq_max(s)) by (nonlinear_arith);
        assert(t.len() * seq_min(t) == seq_min(t) * (n - 1)) by (nonlinear_arith)
            requires t.len() == n - 1;
        assert(t.len() * seq_max(t) == seq_max(t) * (n - 1)) by (nonlinear_arith)
            requires t.len() == n - 1;
    }
}

/// The mean of a non-empty sample lies between its least and its greatest
/// element.
pub proof fn lemma_mean_in_range(s: Seq<i64>)
    requires
        s.len() > 0,
    ensures
        seq_min(s) <= mean_spec(s),
        mean_spec(s) <= seq_max(s),
{
    lemma_sum_bounds(s);
    lemma_trunc_div_bounds(sum_spec(s), s.len() as int, seq_min(s), seq_max(s));
}

/// A coarse overflow bound: the sum of a sample is at most its length times
/// the extreme values of the element type in magnitude.
proof fn lemma_sum_coarse_bounds(s: Seq<i64>)
    ensures
        -(s.len() as int) * 0x8000_0000_0000_0000 <= sum_spec(s),
        sum_spec(s) <= (s.len() as int) * 0x7fff_ffff_ffff_ffff,
    decreases s.len(),
{
    if s.len() > 0 {
        lemma_sum_coarse_bounds(s.drop_last());
    }
}

/// A sum of squared deviations is never negative, whatever the center: the
/// consistency invariant of the dispersion engine, here a theorem of the
/// exact arithmetic.
pub proof fn lemma_ssd_nonneg(s: Seq<i64>, c: int)
    ensures
        ssd_spec(s, c) >= 0,
    decreases s.len(),
{
    if s.len() > 0 {
        lemma_ssd_nonneg(s.drop_last(), c);
        assert((s.last() as int - c) * (s.last() as int - c) >= 0) by (nonlinear_arith);
    }
}

/// Taking one more element adds that element's squared deviation.
proof fn lemma_ssd_take_succ(s: Seq<i64>, c: int, i: int)
    requires
        0 <= i < s.len(),
    ensures
        ssd_spec(s.take(i + 1), c) == ssd_spec(s.take(i), c) + (s[i] as int - c) * (s[i] as int
            - c),
{
    assert(s.take(i + 1).drop_last() =~= s.take(i));
    assert(s.take(i + 1).last() == s[i]);
}

/// A prefix's sum of squared deviations never exceeds the whole sample's.
proof fn lemma_ssd_take_le(s: Seq<i64>, c: int, i: int)
    requires
        0 <= i <= s.len(),
    ensures
        ssd_spec(s.take(i), c) <= ssd_spec(s, c),
    decreases s.len() - i,
{
    if i == s.len() {
        assert(s.take(i) =~= s);
    } else {
        lemma_ssd_take_succ(s, c, i);
        assert((s[i] as int - c) * (s[i] as int - c) >= 0) by (nonlinear_arith);
        lemma_ssd_take_le(s, c, i + 1);
    }
}

/// The degree of a standardized moment: the enumeration restricts the power
/// to the four that the shape statistics use.
#[derive(Clone, Copy, Debug, PartialEq, Eq, Structural)]
pub enum Degree {
    One,
    Two,
    Three,
    Four,
}

impl Degree {
    /// The exponent this degree raises the standardized deviation to.
    pub open spec fn exponent_spec(self) -> u32 {
        match self {
            Degree::One => 1,
            Degree::Two => 2,
            Degree::Three => 3,
            Degree::Four => 4,
        }
    }

    /// The exponent as a machine integer.
    pub fn exponent(&self) -> (r: u32)
        ensures
            r == self.exponent_spec(),
    {
        match self {
            Degree::One => 1,
            Degree::Two => 2,
            Degree::Three => 3,
            Degree::Four => 4,
        }
    }
}

/// The arithmetic mean of a sample: its sum divided by its length.
///
/// Fails exactly on the empty sample.
pub fn mean(v: &Vec<i64>) -> (r: Result<i64, StatsError>)
    ensures
        (r is Err) <==> v@.len() == 0,
        r is Err ==> r == Err::<i64, StatsError>(StatsError::TooFewSamples),
        r matches Ok(m) ==> m as int == mean_spec(v@),
{
    if v.len() == 0 {
        return Err(StatsError::TooFewSamples);
    }
    let mut sum: i128 = 0;
    let mut i: usize = 0;
    while i < v.len()
        invariant
            0 <= i <= v@.len(),
            sum == sum_spec(v@.take(i as int)),
        decreases v@.len() - i,
    {
        proof {
            lemma_sum_coarse_bounds(v@.take(i as int + 1));
            assert(v@.take(i as int + 1).drop_last() =~= v@.take(i as int));
            assert(v@.take(i as int + 1).last() == v@[i as int]);
        }
        sum = sum + (v[i] as i128);
        i += 1;
    }
    proof {
        assert(v@.take(v@.len() as int) =~= v@);
        lemma_mean_in_range(v@);
        lemma_min_max_basics(v@);
        lemma_sum_coarse_bounds(v@);
    }
    let n: u128 = v.len() as u128;
    if sum >= 0 {
        let q: u128 = (sum as u128) / n;
        Ok(q as i64)
    } else {
        let neg: u128 = (-sum) as u128;
        let q: u128 = neg / n;
        let qi: i128 = q as i128;
        Ok((-qi) as i64)
    }
}

/// The median: sort a private working copy of the sample with the selection
/// engine and take the middle element, or the mean of the two middle
/// elements for an even length. The caller's sample is never reordered.
///
/// Fails exactly on the empty sample.
pub fn median(v: &Vec<i64>) -> (r: Result<i64, StatsError>)
    ensures
        (r is Err) <==> v@.len() == 0,
        r is Err ==> r == Err::<i64, StatsError>(StatsError::TooFewSamples),
        r matches Ok(m) ==> m as int == median_spec(v@),
{
    if v.len() == 0 {
        return Err(StatsError::TooFewSamples);
    }
    let mut scratch: Vec<i64> = v.clone();
    proof {
        assert(scratch@ =~= v@);
    }
    quicksort(&mut scratch);
    let n: usize = scratch.len();
    let mid: usize = n / 2;
    proof {
        crate::sort::lemma_sort_spec_ensures(v@);
    }
    if n % 2 == 1 {
        Ok(scratch[mid])
    } else {
        let a: i128 = scratch[mid - 1] as i128;
        let b: i128 = scratch[mid] as i128;
        let s: i128 = a + b;
        proof {
            if a <= b {
                lemma_trunc_div_bounds(a + b, 2, a as int, b as int);
            } else {
                lemma_trunc_div_bounds(a + b, 2, b as int, a as int);
            }
        }
        if s >= 0 {
            let q: u128 = (s as u128) / 2;
            Ok(q as i64)
        } else {
            let neg: u128 = (-s) as u128;
            let q: u128 = neg / 2;
            let qi: i128 = q as i128;
            Ok((-qi) as i64)
        }
    }
}

/// The sum of squared deviations of the sample from a center: the supplied
/// one, or the sample mean when none is supplied.
///
/// Fails exactly when the default center is asked of an empty sample. The
/// result is never negative.
pub fn sum_square_deviations(v: &Vec<i64>, c: Option<i64>) -> (r: Result<i128, StatsError>)
    requires
        !(v@.len() == 0 && c is None) ==> ssd_spec(v@, center_spec(v@, c)) <= i128::MAX as int,
    ensures
        (r is Err) <==> (v@.len() == 0 && c is None),
        r is Err ==> r == Err::<i128, StatsError>(StatsError::TooFewSamples),
        r matches Ok(s) ==> s as int == ssd_spec(v@, center_spec(v@, c)) && s >= 0,
{
    let cc: i64 = match c {
        Some(x) => x,
        None => {
            match mean(v) {
                Ok(m) => m,
                Err(e) => {
                    return Err(e);
                },
            }
        },
    };
    let mut sum: i128 = 0;
    let mut i: usize = 0;
    while i < v.len()
        invariant
            0 <= i <= v@.len(),
            cc as int == center_spec(v@, c),
            ssd_spec(v@, cc as int) <= i128::MAX as int,
            sum == ssd_spec(v@.take(i as int), cc as int),
            sum >= 0,
        decreases v@.len() - i,
    {
        let d: i128 = (v[i] as i128) - (cc as i128);
        proof {
            lemma_ssd_take_succ(v@, cc as int, i as int);
            lemma_ssd_take_le(v@, cc as int, i as int + 1);
            assert(d == v@[i as int] as int - cc as int);
            assert(d * d >= 0) by (nonlinear_arith);
        }
        let sq: i128 = d * d;
        sum = sum + sq;
        i += 1;
    }
    proof {
        assert(v@.take(v@.len() as int) =~= v@);
    }
    Ok(sum)
}

/// The sample variance: the sum of squared deviations divided by `n - 1`,
/// about the supplied mean or the sample mean.
///
/// Fails exactly when the sample has fewer than two elements. The result is
/// never negative.
pub fn variance(v: &Vec<i64>, xbar: Option<i64>) -> (r: Result<i128, StatsError>)
    requires
        v@.len() >= 2 ==> ssd_spec(v@, center_spec(v@, xbar)) <= i128::MAX as int,
    ensures
        (r is Err) <==> v@.len() < 2,
        r is Err ==> r == Err::<i128, StatsError>(StatsError::TooFewSamples),
        r matches Ok(x) ==> x as int == ssd_spec(v@, center_spec(v@, xbar)) / (v@.len() - 1)
            && x >= 0,
{
    if v.len() < 2 {
        return Err(StatsError::TooFewSamples);
    }
    let s: i128 = match sum_square_deviations(v, xbar) {
        Ok(s) => s,
        Err(_) => {
            proof {
                assert(false);
            }
            return Err(StatsError::TooFewSamples);
        },
    };
    let n1: u128 = (v.len() - 1) as u128;
    let q: u128 = (s as u128) / n1;
    proof {
        lemma_div_shrinks(s as int, n1 as int);
    }
    Ok(q as i128)
}

/// The population variance: the sum of squared deviations divided by `n`,
/// about the supplied mean or the sample mean.
///
/// Fails exactly on the empty sample. The result is never negative.
pub fn population_variance(v: &Vec<i64>, mu: Option<i64>) -> (r: Result<i128, StatsError>)
    requires
        v@.len() >= 1 ==> ssd_spec(v@, center_spec(v@, mu)) <= i128::MAX as int,
    ensures
        (r is Err) <==> v@.len() == 0,
        r is Err ==> r == Err::<i128, StatsError>(StatsError::TooFewSamples),
        r matches Ok(x) ==> x as int == ssd_spec(v@, center_spec(v@, mu)) / (v@.len() as int)
            && x >= 0,
{
    if v.len() == 0 {
        return Err(StatsError::TooFewSamples);
    }
    let s: i128 = match sum_square_deviations(v, mu) {
        Ok(s) => s,
        Err(_) => {
            proof {
                assert(false);
            }
            return Err(StatsError::TooFewSamples);
        },
    };
    let n: u128 = v.len() as u128;
    let q: u128 = (s as u128) / n;
    proof {
        lemma_div_shrinks(s as int, n as int);
    }
    Ok(q as i128)
}

/// Dividing a non-negative value by a positive divisor never enlarges it.
pub(crate) proof fn lemma_div_shrinks(a: int, d: int)
    requires
        a >= 0,
        d >= 1,
    ensures
        0 <= a / d <= a,
{
    lemma_div_basics(a);
    vstd::arithmetic::div_mod::lemma_div_is_ordered_by_denominator(a, 1, d);
    vstd::arithmetic::div_mod::lemma_div_pos_is_pos(a, d);
}

} // verus!
