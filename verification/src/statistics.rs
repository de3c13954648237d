//! Statistics over sequences of scaled integers: mean, variance,
//! standard deviation (by integer square root), min/max, percentile
//! with linear interpolation, and median.

use vstd::prelude::*;

use vstd::multiset::Multiset;

use crate::{FinancialError, FinancialResult};

verus! {

/// The sum of a sequence of scaled values.
pub open spec fn spec_sum(s: Seq<u128>) -> int
    decreases s.len(),
{
    if s.len() == 0 {
        0
    } else {
        spec_sum(s.drop_last()) + s.last()
    }
}

/// The squared distance of `x` from `m`.
pub open spec fn spec_sq_diff(x: u128, m: u128) -> int {
    let d = if x >= m {
        x - m
    } else {
        m - x
    };
    d * d
}

/// The sum of squared distances of a sequence from `m`.
pub open spec fn spec_sum_sq_diff(s: Seq<u128>, m: u128) -> int
    decreases s.len(),
{
    if s.len() == 0 {
        0
    } else {
        spec_sum_sq_diff(s.drop_last(), m) + spec_sq_diff(s.last(), m)
    }
}

/// A prefix sum never exceeds the sum of the whole sequence.
proof fn lemma_sum_prefix_bound(s: Seq<u128>, i: int)
    requires
        0 <= i <= s.len(),
    ensures
        spec_sum(s.subrange(0, i)) <= spec_sum(s),
        spec_sum(s.subrange(0, i)) >= 0,
    decreases s.len() - i, i,
{
    if i < s.len() {
        lemma_sum_prefix_bound(s, i + 1);
        assert(s.subrange(0, i + 1).drop_last() =~= s.subrange(0, i));
        if i == 0 {
            lemma_sum_nonneg(s.subrange(0, 0));
        } else {
            lemma_sum_nonneg(s.subrange(0, i));
        }
    } else {
        assert(s.subrange(0, i) =~= s);
        lemma_sum_nonneg(s);
    }
}

/// Sums of unsigned values are non-negative.
proof fn lemma_sum_nonneg(s: Seq<u128>)
    ensures
        spec_sum(s) >= 0,
    decreases s.len(),
{
    if s.len() > 0 {
        lemma_sum_nonneg(s.drop_last());
    }
}

/// A prefix sum of squared distances never exceeds that of the whole.
proof fn lemma_sum_sq_prefix_bound(s: Seq<u128>, m: u128, i: int)
    requires
        0 <= i <= s.len(),
    ensures
        spec_sum_sq_diff(s.subrange(0, i), m) <= spec_sum_sq_diff(s, m),
        spec_sum_sq_diff(s.subrange(0, i), m) >= 0,
    decreases s.len() - i, i,
{
    if i < s.len() {
        lemma_sum_sq_prefix_bound(s, m, i + 1);
        assert(s.subrange(0, i + 1).drop_last() =~= s.subrange(0, i));
        lemma_sum_sq_nonneg(s.subrange(0, i), m);
        assert(spec_sq_diff(s[i], m) >= 0) by (nonlinear_arith);
    } else {
        assert(s.subrange(0, i) =~= s);
        lemma_sum_sq_nonneg(s, m);
    }
}

/// Sums of squares are non-negative.
proof fn lemma_sum_sq_nonneg(s: Seq<u128>, m: u128)
    ensures
        spec_sum_sq_diff(s, m) >= 0,
    decreases s.len(),
{
    if s.len() > 0 {
        lemma_sum_sq_nonneg(s.drop_last(), m);
        assert(spec_sq_diff(s.last(), m) >= 0) by (nonlinear_arith);
    }
}

/// Mean `sum / n`; the empty sequence is rejected with `InvalidValue`.
pub fn calculate_mean(values: &Vec<u128>) -> (r: FinancialResult<u128>)
    requires
        spec_sum(values@) <= u128::MAX,
    ensures
        values@.len() == 0 ==> r == FinancialResult::<u128>::Err(FinancialError::InvalidValue),
        values@.len() != 0 ==> r == FinancialResult::<u128>::Ok(
            (spec_sum(values@) / values@.len() as int) as u128,
        ),
{
    if values.len() == 0 {
        return Err(FinancialError::InvalidValue);
    }

    let mut sum: u128 = 0;
    let mut i: usize = 0;
    proof {
        assert(values@.subrange(0, 0) =~= Seq::<u128>::empty());
    }
    while i < values.len()
        invariant
            i <= values@.len(),
            spec_sum(values@) <= u128::MAX,
            sum == spec_sum(values@.subrange(0, i as int)),
        decreases values@.len() - i,
    {
        proof {
            lemma_sum_prefix_bound(values@, i + 1);
            assert(values@.subrange(0, i + 1).drop_last() =~= values@.subrange(0, i as int));
        }
        sum = sum + values[i];
        i = i + 1;
    }
    proof {
        assert(values@.subrange(0, values@.len() as int) =~= values@);
    }
    Ok(sum / (values.len() as u128))
}

/// Sample variance `sum((x - mean)^2) / (n - 1)`; fewer than two values
/// are rejected with `InvalidValue`.
pub fn calculate_variance(values: &Vec<u128>, mean: u128) -> (r: FinancialResult<u128>)
    requires
        spec_sum_sq_diff(values@, mean) <= u128::MAX,
    ensures
        values@.len() < 2 ==> r == FinancialResult::<u128>::Err(FinancialError::InvalidValue),
        values@.len() >= 2 ==> r == FinancialResult::<u128>::Ok(
            (spec_sum_sq_diff(values@, mean) / (values@.len() - 1) as int) as u128,
        ),
{
    if values.len() < 2 {
        return Err(FinancialError::InvalidValue);
    }

    let mut sum: u128 = 0;
    let mut i: usize = 0;
    proof {
        assert(values@.subrange(0, 0) =~= Seq::<u128>::empty());
    }
    while i < values.len()
        invariant
            i <= values@.len(),
            spec_sum_sq_diff(values@, mean) <= u128::MAX,
            sum == spec_sum_sq_diff(values@.subrange(0, i as int), mean),
        decreases values@.len() - i,
    {
        proof {
            lemma_sum_sq_prefix_bound(values@, mean, i + 1);
            assert(values@.subrange(0, i + 1).drop_last() =~= values@.subrange(0, i as int));
            lemma_sum_sq_nonneg(values@.subrange(0, i as int), mean);
        }
        let x = values[i];
        let diff = if x > mean {
            x - mean
        } else {
            mean - x
        };
        proof {
            assert(diff * diff == spec_sq_diff(values@[i as int], mean));
            assert(spec_sq_diff(values@[i as int], mean) >= 0) by (nonlinear_arith);
        }
        sum = sum + diff * diff;
        i = i + 1;
    }
    proof {
        assert(values@.subrange(0, values@.len() as int) =~= values@);
    }
    Ok(sum / (values.len() as u128 - 1))
}

/// `r` is the floor of the square root of `n`.
pub open spec fn is_sqrt_floor(n: int, r: int) -> bool {
    &&& r * r <= n
    &&& (r + 1) * (r + 1) > n
}

/// Every non-negative integer has a floor square root.
proof fn lemma_sqrt_exists(n: nat)
    ensures
        exists|s: int| 0 <= s && #[trigger] is_sqrt_floor(n as int, s),
    decreases n,
{
    if n == 0 {
        assert(is_sqrt_floor(0, 0)) by (nonlinear_arith);
    } else {
        lemma_sqrt_exists((n - 1) as nat);
        let s = choose|s: int| 0 <= s && #[trigger] is_sqrt_floor(n - 1, s);
        if (s + 1) * (s + 1) <= n {
            assert((s + 1) * (s + 1) <= n && (s + 2) * (s + 2) > n) by (nonlinear_arith)
                requires
                    0 <= s,
                    (s + 1) * (s + 1) <= n,
                    n - 1 < (s + 1) * (s + 1),
            ;
            assert(is_sqrt_floor(n as int, s + 1));
        } else {
            assert(is_sqrt_floor(n as int, s));
        }
    }
}

/// One Newton step from any `x >= 1` lands at or above the floor
/// square root of `n`.
proof fn lemma_newton_step_above(n: u128, x: u128, s: int)
    requires
        x >= 1,
        0 <= s,
        s * s <= n,
    ensures
        (x as int + n as int / x as int) / 2 >= s,
{
    let q = n as int / x as int;
    let r = n as int % x as int;
    assert(n == q * x + r && 0 <= r < x) by (nonlinear_arith)
        requires
            x >= 1,
            q == n as int / x as int,
            r == n as int % x as int,
    ;
    assert(x * x + s * s >= 2 * s * x) by (nonlinear_arith);
    assert((x as int + q) * x > (2 * s - 1) * x) by (nonlinear_arith)
        requires
            x * x + s * s >= 2 * s * x,
            s * s <= n,
            n == q * x + r,
            0 <= r < x,
    ;
    assert(x as int + q > 2 * s - 1) by (nonlinear_arith)
        requires
            (x as int + q) * x > (2 * s - 1) * x,
            x >= 1,
    ;
    assert(x as int + q >= 2 * s);
}

/// A Newton step from `x` between the floor square root and `n/2`
/// stays within the `u128` range.
proof fn lemma_newton_fits(n: u128, x: u128, s: int)
    requires
        1 <= x,
        x as int <= n as int / 2,
        0 <= s <= x,
        is_sqrt_floor(n as int, s),
    ensures
        x as int + n as int / x as int <= u128::MAX,
{
    let q = n as int / x as int;
    assert((x + 1) * (x + 1) > n) by (nonlinear_arith)
        requires
            s <= x,
            0 <= s,
            (s + 1) * (s + 1) > n,
    ;
    assert(q * x <= n && q >= 0) by (nonlinear_arith)
        requires
            x >= 1,
            q == n as int / x as int,
            n >= 0,
    ;
    assert(2 * (n as int / 2) <= n);
    if x > 0x40000000000000000000000000000000u128 {
        assert(q <= 3) by (nonlinear_arith)
            requires
                q * x <= n,
                n <= u128::MAX,
                x > 0x40000000000000000000000000000000u128,
                q >= 0,
        ;
    } else {
        assert(q <= x + 2) by (nonlinear_arith)
            requires
                q * x <= n,
                n < (x + 1) * (x + 1),
                x >= 1,
                q >= 0,
        ;
    }
}

/// Integer square root by Newton's iteration, returning the floor of
/// the real square root.
pub fn integer_sqrt(n: u128) -> (r: FinancialResult<u128>)
    ensures
        r is Ok,
        is_sqrt_floor(n as int, r->Ok_0 as int),
{
    if n == 0 || n == 1 {
        proof {
            assert(is_sqrt_floor(n as int, n as int)) by (nonlinear_arith)
                requires
                    n == 0 || n == 1,
            ;
        }
        return Ok(n);
    }

    proof {
        lemma_sqrt_exists(n as nat);
    }
    let ghost s = choose|s: int| 0 <= s && #[trigger] is_sqrt_floor(n as int, s);
    proof {
        assert(s >= 1) by (nonlinear_arith)
            requires
                is_sqrt_floor(n as int, s as int),
                n >= 2,
        ;
        assert(s <= n / 2) by (nonlinear_arith)
            requires
                is_sqrt_floor(n as int, s as int),
                n >= 2,
        ;
    }

    let mut x: u128 = n / 2;
    proof {
        lemma_newton_fits(n, x, s);
    }
    let mut y: u128 = (x + n / x) / 2;
    proof {
        lemma_newton_step_above(n, x, s);
    }

    while y < x
        invariant
            n >= 2,
            is_sqrt_floor(n as int, s as int),
            1 <= s,
            s <= x,
            s <= y,
            x as int <= n as int / 2,
            y == (x as int + n as int / x as int) / 2,
        decreases x,
    {
        x = y;
        proof {
            lemma_newton_fits(n, x, s);
        }
        y = (x + n / x) / 2;
        proof {
            lemma_newton_step_above(n, x, s);
        }
    }

    proof {
        let q = n as int / x as int;
        assert(x as int + q >= 2 * x);
        assert(q >= x);
        assert(x * x <= n) by (nonlinear_arith)
            requires
                x >= 1,
                n as int / x as int >= x,
        ;
        assert(x <= s) by (nonlinear_arith)
            requires
                x * x <= n,
                (s + 1) * (s + 1) > n,
                x >= 0,
                s >= 0,
        ;
        assert(x == s);
    }
    Ok(x)
}

/// Standard deviation: the integer square root of the sample variance.
/// Fewer than two values are rejected with `InvalidValue`.
pub fn calculate_std_dev(values: &Vec<u128>) -> (r: FinancialResult<u128>)
    requires
        spec_sum(values@) <= u128::MAX,
        spec_sum_sq_diff(
            values@,
            (spec_sum(values@) / values@.len() as int) as u128,
        ) <= u128::MAX,
    ensures
        values@.len() < 2 ==> r == FinancialResult::<u128>::Err(FinancialError::InvalidValue),
        values@.len() >= 2 ==> {
            let mean = (spec_sum(values@) / values@.len() as int) as u128;
            let variance = (spec_sum_sq_diff(values@, mean) / (values@.len() - 1) as int) as u128;
            r is Ok && is_sqrt_floor(variance as int, r->Ok_0 as int)
        },
{
    if values.len() < 2 {
        return Err(FinancialError::InvalidValue);
    }

    let mean = match calculate_mean(values) {
        Ok(m) => m,
        Err(e) => {
            return Err(e);
        },
    };
    let variance = match calculate_variance(values, mean) {
        Ok(v) => v,
        Err(e) => {
            return Err(e);
        },
    };
    integer_sqrt(variance)
}

/// Minimum element; the empty sequence is rejected with `InvalidValue`.
pub fn calculate_min(values: &Vec<u128>) -> (r: FinancialResult<u128>)
    ensures
        values@.len() == 0 ==> r == FinancialResult::<u128>::Err(FinancialError::InvalidValue),
        values@.len() != 0 ==> {
            &&& r is Ok
            &&& values@.contains(r->Ok_0)
            &&& forall|j: int| 0 <= j < values@.len() ==> r->Ok_0 <= values@[j]
        },
{
    if values.len() == 0 {
        return Err(FinancialError::InvalidValue);
    }

    let mut best: u128 = values[0];
    let mut i: usize = 1;
    while i < values.len()
        invariant
            1 <= i <= values@.len(),
            values@.contains(best),
            forall|j: int| 0 <= j < i ==> best <= values@[j],
        decreases values@.len() - i,
    {
        if values[i] < best {
            best = values[i];
        }
        i = i + 1;
    }
    Ok(best)
}

/// Maximum element; the empty sequence is rejected with `InvalidValue`.
pub fn calculate_max(values: &Vec<u128>) -> (r: FinancialResult<u128>)
    ensures
        values@.len() == 0 ==> r == FinancialResult::<u128>::Err(FinancialError::InvalidValue),
        values@.len() != 0 ==> {
            &&& r is Ok
            &&& values@.contains(r->Ok_0)
            &&& forall|j: int| 0 <= j < values@.len() ==> r->Ok_0 >= values@[j]
        },
{
    if values.len() == 0 {
        return Err(FinancialError::InvalidValue);
    }

    let mut best: u128 = values[0];
    let mut i: usize = 1;
    while i < values.len()
        invariant
            1 <= i <= values@.len(),
            values@.contains(best),
            forall|j: int| 0 <= j < i ==> best >= values@[j],
        decreases values@.len() - i,
    {
        if values[i] > best {
            best = values[i];
        }
        i = i + 1;
    }
    Ok(best)
}

/// Insertion of `x` into a sorted sequence, before the first element
/// greater than `x`.
pub open spec fn spec_sorted_insert(s: Seq<u128>, x: u128) -> Seq<u128>
    decreases s.len(),
{
    if s.len() == 0 {
        seq![x]
    } else if s[0] <= x {
        seq![s[0]] + spec_sorted_insert(s.drop_first(), x)
    } else {
        seq![x] + s
    }
}

/// The ascending sort of a sequence, built by repeated insertion.
pub open spec fn spec_sort(s: Seq<u128>) -> Seq<u128>
    decreases s.len(),
{
    if s.len() == 0 {
        Seq::empty()
    } else {
        spec_sorted_insert(spec_sort(s.drop_last()), s.last())
    }
}

/// Whether a sequence is sorted in ascending order.
pub open spec fn spec_is_sorted(s: Seq<u128>) -> bool {
    forall|p: int, q: int| 0 <= p <= q < s.len() ==> s[p] <= s[q]
}

/// Inserting at the scan position computes `spec_sorted_insert`.
proof fn lemma_sorted_insert_at(s: Seq<u128>, x: u128, i: int)
    requires
        0 <= i <= s.len(),
        forall|k: int| 0 <= k < i ==> s[k] <= x,
        i < s.len() ==> s[i] > x,
    ensures
        spec_sorted_insert(s, x) =~= s.subrange(0, i) + seq![x] + s.subrange(i, s.len() as int),
    decreases i,
{
    if s.len() == 0 {
        assert(spec_sorted_insert(s, x) =~= seq![x]);
    } else if i == 0 {
        assert(s[0] > x);
    } else {
        lemma_sorted_insert_at(s.drop_first(), x, i - 1);
        assert(s.drop_first().subrange(0, i - 1) =~= s.subrange(1, i));
        assert(s.drop_first().subrange(i - 1, s.len() - 1) =~= s.subrange(i, s.len() as int));
    }
}

/// Sorting preserves length.
proof fn lemma_sorted_insert_len(s: Seq<u128>, x: u128)
    ensures
        spec_sorted_insert(s, x).len() == s.len() + 1,
    decreases s.len(),
{
    if s.len() > 0 && s[0] <= x {
        lemma_sorted_insert_len(s.drop_first(), x);
    }
}

/// The length of the sort equals the length of the input.
pub proof fn lemma_sort_len(s: Seq<u128>)
    ensures
        spec_sort(s).len() == s.len(),
    decreases s.len(),
{
    if s.len() > 0 {
        lemma_sort_len(s.drop_last());
        lemma_sorted_insert_len(spec_sort(s.drop_last()), s.last());
    }
}

/// Insertion into a sorted sequence keeps it sorted.
proof fn lemma_sorted_insert_sorted(s: Seq<u128>, x: u128)
    requires
        spec_is_sorted(s),
    ensures
        spec_is_sorted(spec_sorted_insert(s, x)),
    decreases s.len(),
{
    lemma_sorted_insert_len(s, x);
    if s.len() == 0 {
    } else if s[0] <= x {
        assert(spec_is_sorted(s.drop_first()));
        lemma_sorted_insert_sorted(s.drop_first(), x);
        lemma_sorted_insert_first(s.drop_first(), x);
        let t = spec_sorted_insert(s, x);
        let u = spec_sorted_insert(s.drop_first(), x);
        assert forall|p: int, q: int| 0 <= p <= q < t.len() implies t[p] <= t[q] by {
            if p == 0 && q > 0 {
                assert(t[q] == u[q - 1]);
                if u.len() > 0 {
                    if s.drop_first().len() == 0 {
                        assert(u[0] == x);
                    }
                    assert(t[0] <= u[0]);
                    assert(u[0] <= u[q - 1]);
                }
            } else if p > 0 {
                assert(t[p] == u[p - 1] && t[q] == u[q - 1]);
            }
        }
    }
}

/// The first element after insertion is the smaller of `x` and the old
/// first element.
proof fn lemma_sorted_insert_first(s: Seq<u128>, x: u128)
    ensures
        spec_sorted_insert(s, x).len() == s.len() + 1,
        spec_sorted_insert(s, x)[0] == if s.len() > 0 && s[0] <= x {
            s[0]
        } else {
            x
        },
    decreases s.len(),
{
    lemma_sorted_insert_len(s, x);
}

/// The sort of any sequence is sorted.
pub proof fn lemma_sort_sorted(s: Seq<u128>)
    ensures
        spec_is_sorted(spec_sort(s)),
    decreases s.len(),
{
    if s.len() > 0 {
        lemma_sort_sorted(s.drop_last());
        lemma_sorted_insert_sorted(spec_sort(s.drop_last()), s.last());
    }
}

/// The sort of a sequence holds the same values with the same counts.
pub proof fn lemma_sort_multiset(s: Seq<u128>)
    ensures
        spec_sort(s).to_multiset() =~= s.to_multiset(),
    decreases s.len(),
{
    broadcast use vstd::seq_lib::group_to_multiset_ensures;

    if s.len() > 0 {
        lemma_sort_multiset(s.drop_last());
        lemma_sorted_insert_multiset(spec_sort(s.drop_last()), s.last());
        assert(s =~= s.drop_last().push(s.last()));
        assert(s.to_multiset() =~= s.drop_last().to_multiset().insert(s.last()));
    }
}

/// Insertion adds exactly one occurrence of the inserted value.
proof fn lemma_sorted_insert_multiset(s: Seq<u128>, x: u128)
    ensures
        spec_sorted_insert(s, x).to_multiset() =~= s.to_multiset().insert(x),
    decreases s.len(),
{
    broadcast use vstd::seq_lib::group_to_multiset_ensures;

    if s.len() == 0 {
        assert(spec_sorted_insert(s, x) =~= Seq::<u128>::empty().push(x));
        assert(s.to_multiset() =~= Multiset::<u128>::empty());
    } else if s[0] <= x {
        lemma_sorted_insert_multiset(s.drop_first(), x);
        let t = spec_sorted_insert(s, x);
        let u = spec_sorted_insert(s.drop_first(), x);
        assert(t =~= seq![s[0]] + u);
        lemma_multiset_cons(s[0], u);
        lemma_multiset_cons(s[0], s.drop_first());
        assert(s =~= seq![s[0]] + s.drop_first());
    } else {
        let t = spec_sorted_insert(s, x);
        assert(t =~= seq![x] + s);
        lemma_multiset_cons(x, s);
    }
}

/// Prepending one element inserts it into the multiset.
proof fn lemma_multiset_cons(x: u128, s: Seq<u128>)
    ensures
        (seq![x] + s).to_multiset() =~= s.to_multiset().insert(x),
    decreases s.len(),
{
    broadcast use vstd::seq_lib::group_to_multiset_ensures;

    if s.len() == 0 {
        assert(seq![x] + s =~= Seq::<u128>::empty().push(x));
    } else {
        lemma_multiset_cons(x, s.drop_last());
        assert((seq![x] + s).drop_last() =~= seq![x] + s.drop_last());
        assert(seq![x] + s =~= (seq![x] + s.drop_last()).push(s.last()));
        assert(s =~= s.drop_last().push(s.last()));
    }
}

/// Sort a vector of scaled values in ascending order.
fn sort_values(values: &Vec<u128>) -> (r: Vec<u128>)
    ensures
        r@ == spec_sort(values@),
        spec_is_sorted(r@),
        r@.len() == values@.len(),
{
    let mut out: Vec<u128> = Vec::new();
    let mut i: usize = 0;
    proof {
        assert(values@.subrange(0, 0) =~= Seq::<u128>::empty());
    }
    while i < values.len()
        invariant
            i <= values@.len(),
            out@ == spec_sort(values@.subrange(0, i as int)),
            out@.len() == i,
            spec_is_sorted(out@),
        decreases values@.len() - i,
    {
        let x = values[i];
        let ghost pre = out@;

        let mut j: usize = 0;
        while j < out.len() && out[j] <= x
            invariant
                j <= out@.len(),
                out@ == pre,
                forall|k: int| 0 <= k < j ==> out@[k] <= x,
            decreases out@.len() - j,
        {
            j = j + 1;
        }
        out.insert(j, x);
        proof {
            lemma_sorted_insert_at(pre, x, j as int);
            assert(out@ =~= pre.subrange(0, j as int) + seq![x] + pre.subrange(
                j as int,
                pre.len() as int,
            ));
            assert(out@ =~= spec_sorted_insert(pre, x));
            assert(values@.subrange(0, i + 1).drop_last() =~= values@.subrange(0, i as int));
            lemma_sorted_insert_sorted(pre, x);
        }
        i = i + 1;
    }
    proof {
        assert(values@.subrange(0, values@.len() as int) =~= values@);
        lemma_sort_len(values@);
    }
    out
}

/// What percentile interpolation returns on the sorted sequence `s`:
/// `s[lo] + (s[hi] - s[lo]) * frac` where the position `p * (n-1) / 100`
/// splits into `lo` and the fraction `frac`, truncated to an integer.
pub open spec fn spec_percentile_of_sorted(s: Seq<u128>, p: u32) -> int {
    if p == 0 {
        s[0] as int
    } else if p == 100 {
        s[s.len() - 1] as int
    } else {
        let num = p * (s.len() - 1);
        let lo = num / 100;
        let rem = num % 100;
        s[lo] + (s[lo + 1] - s[lo]) * rem / 100
    }
}

/// Percentile with linear interpolation over the ascending sort of the
/// input. An empty input or a percentile above 100 is rejected with
/// `InvalidValue`; a single value is its own percentile.
pub fn calculate_percentile(values: &Vec<u128>, percentile: u32) -> (r: FinancialResult<u128>)
    ensures
        values@.len() == 0 || percentile > 100 ==> r == FinancialResult::<u128>::Err(
            FinancialError::InvalidValue,
        ),
        values@.len() == 1 && percentile <= 100 ==> r == FinancialResult::<u128>::Ok(values@[0]),
        values@.len() >= 2 && percentile <= 100 ==> r == FinancialResult::<u128>::Ok(
            spec_percentile_of_sorted(spec_sort(values@), percentile) as u128,
        ),
{
    if values.len() == 0 || percentile > 100 {
        return Err(FinancialError::InvalidValue);
    }

    if values.len() == 1 {
        return Ok(values[0]);
    }

    let sorted_values = sort_values(values);
    let n = sorted_values.len();

    if percentile == 0 {
        return Ok(sorted_values[0]);
    }
    if percentile == 100 {
        return Ok(sorted_values[n - 1]);
    }

    proof {
        assert(percentile * (n - 1) <= 100 * (n - 1)) by (nonlinear_arith)
            requires
                percentile <= 100,
                n >= 2,
        ;
    }
    let num: u128 = (percentile as u128) * ((n - 1) as u128);
    let lo_wide: u128 = num / 100;
    let rem: u128 = num % 100;
    proof {
        assert(lo_wide < n - 1) by (nonlinear_arith)
            requires
                lo_wide == (percentile * (n - 1)) as u128 / 100,
                percentile * (n - 1) <= 100 * (n - 1),
                1 <= percentile <= 99,
                n >= 2,
        ;
    }
    let lo: usize = lo_wide as usize;

    let lower_value = sorted_values[lo];
    let upper_value = sorted_values[lo + 1];
    proof {
        assert(spec_is_sorted(sorted_values@));
        assert(lower_value <= upper_value);
    }
    let diff = upper_value - lower_value;

    // floor(diff * rem / 100) without overflowing the product
    let d_hi = diff / 100;
    let d_lo = diff % 100;
    proof {
        assert(d_hi * rem <= (u128::MAX / 100) * 99) by (nonlinear_arith)
            requires
                d_hi == diff / 100,
                diff <= u128::MAX,
                0 <= rem < 100,
        ;
        assert((u128::MAX / 100) * 99 < u128::MAX) by (nonlinear_arith);
        assert(d_lo * rem < 100 * 100) by (nonlinear_arith)
            requires
                d_lo == diff % 100,
                0 <= rem < 100,
                d_lo < 100,
        ;
    }
    let add = d_hi * (rem as u128) + (d_lo * (rem as u128)) / 100;
    proof {
        assert(add == diff * rem / 100) by (nonlinear_arith)
            requires
                d_hi == diff / 100,
                d_lo == diff % 100,
                0 <= rem < 100,
                add == d_hi * rem + (d_lo * rem) / 100,
        ;
        assert(diff * rem / 100 <= diff) by (nonlinear_arith)
            requires
                0 <= rem < 100,
                diff >= 0,
        ;
        assert(lower_value + add <= u128::MAX);
    }

    Ok(lower_value + add)
}

/// Median: the 50th percentile.
pub fn calculate_median(values: &Vec<u128>) -> (r: FinancialResult<u128>)
    ensures
        values@.len() == 0 ==> r == FinancialResult::<u128>::Err(FinancialError::InvalidValue),
        values@.len() == 1 ==> r == FinancialResult::<u128>::Ok(values@[0]),
        values@.len() >= 2 ==> r == FinancialResult::<u128>::Ok(
            spec_percentile_of_sorted(spec_sort(values@), 50) as u128,
        ),
{
    calculate_percentile(values, 50)
}

} // verus!
