//! Frequency-based and deviation-based univariate statistics.

use vstd::prelude::*;
use vstd::math::abs;
use crate::stats::{center_spec, mean};
use crate::StatsError;

verus! {

/// How often a value occurs in a sample.
pub open spec fn occurrences(s: Seq<i64>, x: i64) -> int
    decreases s.len(),
{
    if s.len() == 0 {
        0
    } else {
        occurrences(s.drop_last(), x) + if s.last() == x {
            1int
        } else {
            0int
        }
    }
}

/// A value occurs at all exactly when the sample contains it.
proof fn lemma_occurrences_contains(s: Seq<i64>, x: i64)
    ensures
        occurrences(s, x) >= 0,
        occurrences(s, x) > 0 <==> s.contains(x),
    decreases s.len(),
{
    if s.len() > 0 {
        let t = s.drop_last();
        lemma_occurrences_contains(t, x);
        if s.contains(x) {
            let k = choose|k: int| 0 <= k < s.len() && s[k] == x;
            if k < s.len() - 1 {
                assert(t[k] == x);
                assert(t.contains(x));
            }
        }
        if t.contains(x) {
            let k = choose|k: int| 0 <= k < t.len() && t[k] == x;
            assert(s[k] == x);
        }
        if s.last() == x {
            assert(s[s.len() - 1] == x);
        }
    }
}

/// Counting one more element adds one exactly when it is the value counted.
proof fn lemma_occurrences_take_succ(s: Seq<i64>, x: i64, i: int)
    requires
        0 <= i < s.len(),
    ensures
        occurrences(s.take(i + 1), x) == occurrences(s.take(i), x) + if s[i] == x {
            1int
        } else {
            0int
        },
{
    assert(s.take(i + 1).drop_last() =~= s.take(i));
    assert(s.take(i + 1).last() == s[i]);
}

/// How often `x` occurs in the sample.
fn count_value(v: &Vec<i64>, x: i64) -> (c: usize)
    ensures
        c as int == occurrences(v@, x),
{
    let mut c: usize = 0;
    let mut i: usize = 0;
    while i < v.len()
        invariant
            0 <= i <= v@.len(),
            c as int == occurrences(v@.take(i as int), x),
            c <= i,
        decreases v@.len() - i,
    {
        proof {
            lemma_occurrences_take_succ(v@, x, i as int);
        }
        if v[i] == x {
            c += 1;
        }
        i += 1;
    }
    proof {
        assert(v@.take(v@.len() as int) =~= v@);
    }
    c
}

/// The mode: an element with the highest occurrence count in the sample.
///
/// When several values share the highest count, which of them is returned
/// is unspecified, and callers must not rely on the choice. The empty
/// sample has no mode, reported as `None` rather than as a failure.
pub fn mode(v: &Vec<i64>) -> (r: Option<i64>)
    ensures
        (r is None) <==> v@.len() == 0,
        r matches Some(m) ==> v@.contains(m) && forall|y: i64|
            occurrences(v@, y) <= occurrences(v@, m),
{
    if v.len() == 0 {
        return None;
    }
    let mut best: i64 = v[0];
    let mut best_cnt: usize = count_value(v, best);
    let mut i: usize = 1;
    proof {
        assert(v@[0] == best);
    }
    while i < v.len()
        invariant
            1 <= i <= v@.len(),
            v@.contains(best),
            best_cnt as int == occurrences(v@, best),
            forall|k: int| 0 <= k < i ==> occurrences(v@, v@[k]) <= best_cnt as int,
        decreases v@.len() - i,
    {
        let c: usize = count_value(v, v[i]);
        if c > best_cnt {
            best = v[i];
            best_cnt = c;
            proof {
                assert(v@[i as int] == best);
            }
        }
        i += 1;
    }
    proof {
        assert forall|y: i64| occurrences(v@, y) <= occurrences(v@, best) by {
            lemma_occurrences_contains(v@, y);
            if v@.contains(y) {
                let k = choose|k: int| 0 <= k < v@.len() && v@[k] == y;
                assert(occurrences(v@, v@[k]) <= best_cnt as int);
            }
        }
    }
    Some(best)
}

/// The sum of absolute deviations of the elements from a center `c`.
pub open spec fn abs_dev_spec(s: Seq<i64>, c: int) -> int
    decreases s.len(),
{
    if s.len() == 0 {
        0
    } else {
        abs_dev_spec(s.drop_last(), c) + abs(s.last() as int - c)
    }
}

/// Taking one more element adds that element's absolute deviation.
proof fn lemma_abs_dev_take_succ(s: Seq<i64>, c: int, i: int)
    requires
        0 <= i < s.len(),
    ensures
        abs_dev_spec(s.take(i + 1), c) == abs_dev_spec(s.take(i), c) + abs(s[i] as int - c),
{
    assert(s.take(i + 1).drop_last() =~= s.take(i));
    assert(s.take(i + 1).last() == s[i]);
}

/// A sum of absolute deviations is never negative.
proof fn lemma_abs_dev_nonneg(s: Seq<i64>, c: int)
    ensures
        abs_dev_spec(s, c) >= 0,
    decreases s.len(),
{
    if s.len() > 0 {
        lemma_abs_dev_nonneg(s.drop_last(), c);
    }
}

/// A prefix's sum of absolute deviations never exceeds the whole sample's.
proof fn lemma_abs_dev_take_le(s: Seq<i64>, c: int, i: int)
    requires
        0 <= i <= s.len(),
    ensures
        abs_dev_spec(s.take(i), c) <= abs_dev_spec(s, c),
    decreases s.len() - i,
{
    if i == s.len() {
        assert(s.take(i) =~= s);
    } else {
        lemma_abs_dev_take_succ(s, c, i);
        lemma_abs_dev_take_le(s, c, i + 1);
    }
}

/// The mean absolute deviation of the sample from a center: the supplied
/// mean, or the sample mean when none is supplied.
///
/// Fails exactly on the empty sample. The result is never negative.
pub fn average_deviation(v: &Vec<i64>, m: Option<i64>) -> (r: Result<i128, StatsError>)
    requires
        v@.len() >= 1 ==> abs_dev_spec(v@, center_spec(v@, m)) <= i128::MAX as int,
    ensures
        (r is Err) <==> v@.len() == 0,
        r is Err ==> r == Err::<i128, StatsError>(StatsError::TooFewSamples),
        r matches Ok(x) ==> x as int == abs_dev_spec(v@, center_spec(v@, m)) / (v@.len() as int)
            && x >= 0,
{
    if v.len() == 0 {
        return Err(StatsError::TooFewSamples);
    }
    let cc: i64 = match m {
        Some(x) => x,
        None => {
            match mean(v) {
                Ok(x) => x,
                Err(_) => {
                    proof {
                        assert(false);
                    }
                    return Err(StatsError::TooFewSamples);
                },
            }
        },
    };
    let mut sum: i128 = 0;
    let mut i: usize = 0;
    while i < v.len()
        invariant
            0 <= i <= v@.len(),
            v@.len() >= 1,
            cc as int == center_spec(v@, m),
            abs_dev_spec(v@, cc as int) <= i128::MAX as int,
            sum == abs_dev_spec(v@.take(i as int), cc as int),
            sum >= 0,
        decreases v@.len() - i,
    {
        let d: i128 = (v[i] as i128) - (cc as i128);
        proof {
            lemma_abs_dev_take_succ(v@, cc as int, i as int);
            lemma_abs_dev_take_le(v@, cc as int, i as int + 1);
            lemma_abs_dev_nonneg(v@.take(i as int), cc as int);
        }
        let a: i128 = if d < 0 {
            -d
        } else {
            d
        };
        sum = sum + a;
        i += 1;
    }
    proof {
        assert(v@.take(v@.len() as int) =~= v@);
    }
    let n: u128 = v.len() as u128;
    let q: u128 = (sum as u128) / n;
    proof {
        crate::stats::lemma_div_shrinks(sum as int, n as int);
    }
    Ok(q as i128)
}

} // verus!
