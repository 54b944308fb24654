//! Super-fair division: computing a zero-sum allocation vector from bid
//! (and optional weight) values.
//!
//! Every participant other than the highest bidder receives a baseline
//! share plus a per-capita correction term; the highest bidder absorbs
//! the negated total of everyone else's allocation, so the allocations
//! sum to exactly zero regardless of how integer division truncates.

use vstd::prelude::*;

use crate::Error;

verus! {

/// Whether a mathematical integer fits in the wide signed integer type.
pub open spec fn in_i128(x: int) -> bool {
    i128::MIN <= x <= i128::MAX
}

/// Sum of a sequence of wide integers, as a mathematical integer.
pub open spec fn sum_seq(s: Seq<i128>) -> int
    decreases s.len(),
{
    if s.len() == 0 {
        0
    } else {
        sum_seq(s.drop_last()) + s.last()
    }
}

/// Sum of the element-wise products `values[i] * weights[i]`.
pub open spec fn weighted_sum(values: Seq<i128>, weights: Seq<i128>) -> int
    recommends
        values.len() == weights.len(),
    decreases values.len(),
{
    if values.len() == 0 {
        0
    } else {
        weighted_sum(values.drop_last(), weights.drop_last()) + values.last() * weights.last()
    }
}

/// Index of the first occurrence of the maximum value: scanning left to
/// right, a later value displaces the running maximum only when strictly
/// greater.
pub open spec fn max_index(s: Seq<i128>) -> int
    decreases s.len(),
{
    if s.len() <= 1 {
        0
    } else {
        let j = max_index(s.drop_last());
        if s.last() > s[j] {
            s.len() - 1
        } else {
            j
        }
    }
}

/// The first-occurrence maximum index is a valid index and attains the
/// maximum: nothing before it reaches it, nothing after it exceeds it.
pub proof fn lemma_max_index_props(s: Seq<i128>)
    requires
        s.len() > 0,
    ensures
        0 <= max_index(s) < s.len(),
        forall|i: int| 0 <= i < s.len() ==> #[trigger] s[i] <= s[max_index(s)],
        forall|i: int| 0 <= i < max_index(s) ==> #[trigger] s[i] < s[max_index(s)],
    decreases s.len(),
{
    if s.len() > 1 {
        lemma_max_index_props(s.drop_last());
        assert(forall|i: int| 0 <= i < s.len() - 1 ==> #[trigger] s[i] == s.drop_last()[i]);
    }
}

/// Truncating integer division (rounding toward zero) for a positive
/// divisor, as the executable wide-integer division performs it.
pub open spec fn div_t(a: int, b: int) -> int
    recommends
        b > 0,
{
    if a >= 0 {
        a / b
    } else {
        -((-a) / b)
    }
}

/// Truncating division by `b >= m` maps `[-bound, bound]` into
/// `[-(bound / m), bound / m]`.
proof fn lemma_div_t_bounds(a: int, b: int, m: int, bound: int)
    requires
        0 < m <= b,
        -bound <= a <= bound,
        0 <= bound,
    ensures
        -(bound / m) <= div_t(a, b) <= bound / m,
{
    vstd::arithmetic::div_mod::lemma_div_pos_is_pos(bound, m);
    if a >= 0 {
        vstd::arithmetic::div_mod::lemma_div_pos_is_pos(a, b);
        vstd::arithmetic::div_mod::lemma_div_is_ordered_by_denominator(a, m, b);
        vstd::arithmetic::div_mod::lemma_div_is_ordered(a, bound, m);
    } else {
        vstd::arithmetic::div_mod::lemma_div_pos_is_pos(-a, b);
        vstd::arithmetic::div_mod::lemma_div_is_ordered_by_denominator(-a, m, b);
        vstd::arithmetic::div_mod::lemma_div_is_ordered(-a, bound, m);
    }
}

/// The case split the executable checked division performs agrees with
/// `div_t` for a positive divisor.
proof fn lemma_div_t_cases(a: int, b: int)
    requires
        b > 0,
    ensures
        a == 0 ==> div_t(a, b) == 0,
        a > 0 ==> div_t(a, b) == a / b,
        a < 0 ==> div_t(a, b) == ((a * -1) / b) * -1,
{
    vstd::arithmetic::div_mod::lemma_div_basics(b);
}

/// The correction term: `(n·maxV − sumV) / n²` with truncating division,
/// for a population size `n` and total value `sumV`.
pub open spec fn division_delta(n: int, max_v: int, sum_v: int) -> int
    recommends
        n >= 2,
{
    div_t(n * max_v - sum_v, n * n)
}

/// Equal-weight allocation of a non-maximum participant: the bid divided
/// by the participant count, plus the correction term.
pub open spec fn equal_share(v: Seq<i128>, i: int) -> int
    recommends
        v.len() >= 2,
        0 <= i < v.len(),
{
    div_t(v[i] as int, v.len() as int) + division_delta(
        v.len() as int,
        v[max_index(v)] as int,
        sum_seq(v),
    )
}

/// Running total of the equal-weight allocations of the first `upto`
/// participants, skipping the maximum-bid index.
pub open spec fn equal_others_prefix(v: Seq<i128>, upto: int) -> int
    recommends
        v.len() >= 2,
        0 <= upto <= v.len(),
    decreases upto,
{
    if upto <= 0 {
        0
    } else {
        equal_others_prefix(v, upto - 1) + (if upto - 1 == max_index(v) {
            0
        } else {
            equal_share(v, upto - 1)
        })
    }
}

/// Every intermediate value of the equal-weight computation stays within
/// the wide signed integer range: the running total of the bids, the
/// correction term's multiplications and subtraction, the running total
/// of the non-maximum allocations, and the final negation.
pub open spec fn equal_fits(v: Seq<i128>) -> bool
    recommends
        v.len() >= 2,
{
    let n = v.len() as int;
    let mx = v[max_index(v)] as int;
    &&& forall|i: int| 0 <= i <= v.len() ==> in_i128(sum_seq(#[trigger] v.take(i)))
    &&& in_i128(n * mx)
    &&& in_i128(n * n)
    &&& in_i128(n * mx - sum_seq(v))
    &&& forall|i: int| 0 <= i <= v.len() ==> in_i128(#[trigger] equal_others_prefix(v, i))
    &&& in_i128(-equal_others_prefix(v, v.len() as int))
}

/// A baseline share plus the correction term never overflows: division by
/// at least 2 halves the bid's magnitude and division by at least 4
/// quarters the numerator's, so their sum stays well inside the range.
proof fn lemma_share_parts_fit(v_i: int, n: int, num: int)
    requires
        n >= 2,
        in_i128(v_i),
        in_i128(num),
    ensures
        in_i128(div_t(v_i, n)),
        in_i128(div_t(num, n * n)),
        in_i128(div_t(v_i, n) + div_t(num, n * n)),
{
    let b: int = -(i128::MIN as int);
    assert(b / 2 + b / 4 < b);
    vstd::arithmetic::mul::lemma_mul_inequality(2, n, n);
    lemma_div_t_bounds(v_i, n, 2, b);
    lemma_div_t_bounds(num, n * n, 4, b);
}

/// The written allocations sum, prefix by prefix, to the running total of
/// the non-maximum shares, minus the full total once the maximum index has
/// been passed — so the complete allocation sums to exactly zero.
proof fn lemma_equal_alloc_prefix_sum(out: Seq<i128>, v: Seq<i128>, p: int)
    requires
        out.len() == v.len(),
        v.len() >= 2,
        forall|i: int|
            0 <= i < v.len() && i != max_index(v) ==> #[trigger] out[i] == equal_share(v, i),
        out[max_index(v)] == -equal_others_prefix(v, v.len() as int),
        0 <= p <= v.len(),
    ensures
        sum_seq(out.take(p)) == equal_others_prefix(v, p) + (if max_index(v) < p {
            -equal_others_prefix(v, v.len() as int)
        } else {
            0
        }),
    decreases p,
{
    lemma_max_index_props(v);
    if p > 0 {
        lemma_equal_alloc_prefix_sum(out, v, p - 1);
        assert(out.take(p).drop_last() =~= out.take(p - 1));
        assert(out.take(p).last() == out[p - 1]);
    }
}

/// Computes the super-fair zero-sum allocation for equally weighted
/// participants.
///
/// Every participant except the first-scanned highest bidder receives
/// `values[i] / n + delta` (truncating division, `n` the participant
/// count, `delta` the correction term); the highest bidder receives the
/// negated sum of everyone else's allocation, so the output sums to
/// exactly zero.  All validation and overflow detection happens before
/// anything is written: on failure the output buffer is untouched.
pub fn calculate_fair_division_equal_weights(values: &Vec<i128>, output: &mut Vec<i128>) -> (r:
    Result<(), Error>)
    ensures
        (values@.len() == 0 || old(output)@.len() != values@.len()) ==> r == Err::<(), Error>(
            Error::InvalidInput,
        ),
        (values@.len() != 0 && old(output)@.len() == values@.len() && values@.len() < 2) ==> r
            == Err::<(), Error>(Error::NotEnoughParticipants),
        (values@.len() >= 2 && old(output)@.len() == values@.len() && !equal_fits(values@)) ==> r
            == Err::<(), Error>(Error::CalculationFailed),
        r is Err ==> final(output)@ == old(output)@,
        r is Ok <==> (values@.len() >= 2 && old(output)@.len() == values@.len() && equal_fits(
            values@,
        )),
        r is Ok ==> final(output)@.len() == values@.len(),
        r is Ok ==> forall|i: int|
            0 <= i < values@.len() && i != max_index(values@) ==> #[trigger] final(output)@[i]
                == equal_share(values@, i),
        r is Ok ==> final(output)@[max_index(values@)] == -equal_others_prefix(
            values@,
            values@.len() as int,
        ),
        r is Ok ==> sum_seq(final(output)@) == 0,
{
    if values.len() == 0 || output.len() != values.len() {
        return Err(Error::InvalidInput);
    }
    if values.len() < 2 {
        return Err(Error::NotEnoughParticipants);
    }
    let m = values.len();
    let n: i128 = m as i128;
    proof {
        lemma_max_index_props(values@);
    }

    // Total bid value, with overflow detected.
    let mut sum_v: i128 = 0;
    let mut idx: usize = 0;
    while idx < m
        invariant
            idx <= m,
            m == values@.len(),
            2 <= m,
            old(output)@.len() == m,
            output@ == old(output)@,
            sum_v == sum_seq(values@.take(idx as int)),
            forall|i: int| 0 <= i <= idx ==> in_i128(sum_seq(#[trigger] values@.take(i))),
        decreases m - idx,
    {
        proof {
            assert(values@.take(idx + 1).drop_last() =~= values@.take(idx as int));
        }
        sum_v = match sum_v.checked_add(values[idx]) {
            Some(s) => s,
            None => {
                return Err(Error::CalculationFailed);
            },
        };
        idx = idx + 1;
    }
    proof {
        assert(values@.take(m as int) =~= values@);
    }

    // Highest bid and its first index.
    let mut max_v: i128 = values[0];
    let mut max_idx: usize = 0;
    let mut i: usize = 1;
    while i < m
        invariant
            1 <= i <= m,
            m == values@.len(),
            max_idx < i,
            max_idx as int == max_index(values@.take(i as int)),
            max_v == values@[max_idx as int],
            output@ == old(output)@,
        decreases m - i,
    {
        proof {
            assert(values@.take(i + 1).drop_last() =~= values@.take(i as int));
        }
        if values[i] > max_v {
            max_v = values[i];
            max_idx = i;
        }
        i = i + 1;
    }
    proof {
        assert(values@.take(m as int) =~= values@);
    }

    // Correction term delta = (n·maxV − sumV) / n², with overflow detected.
    let n_max_v = match n.checked_mul(max_v) {
        Some(x) => x,
        None => {
            return Err(Error::CalculationFailed);
        },
    };
    let n_squared = match n.checked_mul(n) {
        Some(x) => x,
        None => {
            return Err(Error::CalculationFailed);
        },
    };
    let numerator = match n_max_v.checked_sub(sum_v) {
        Some(x) => x,
        None => {
            return Err(Error::CalculationFailed);
        },
    };
    proof {
        lemma_share_parts_fit(0, n as int, numerator as int);
        vstd::arithmetic::mul::lemma_mul_inequality(2, n as int, n as int);
    }
    let delta_v = numerator.checked_div(n_squared).unwrap();
    proof {
        lemma_div_t_cases(numerator as int, n_squared as int);
    }
    assert(delta_v == division_delta(m as int, max_v as int, sum_v as int));

    // Dry run: the running total of the non-maximum shares, so overflow is
    // detected before anything is written.
    let mut sum_others: i128 = 0;
    let mut i: usize = 0;
    while i < m
        invariant
            i <= m,
            m == values@.len(),
            m >= 2,
            old(output)@.len() == m,
            output@ == old(output)@,
            n == m as i128,
            max_idx < m,
            max_idx as int == max_index(values@),
            max_v == values@[max_idx as int],
            numerator as int == (m as int) * (max_v as int) - sum_v,
            delta_v == division_delta(m as int, max_v as int, sum_v as int),
            sum_v == sum_seq(values@),
            sum_others == equal_others_prefix(values@, i as int),
            forall|p: int| 0 <= p <= i ==> in_i128(#[trigger] equal_others_prefix(values@, p)),
        decreases m - i,
    {
        if i != max_idx {
            proof {
                lemma_share_parts_fit(values@[i as int] as int, m as int, numerator as int);
            }
            let q = values[i].checked_div(n).unwrap();
            proof {
                lemma_div_t_cases(values@[i as int] as int, n as int);
            }
            let share = q + delta_v;
            assert(share == equal_share(values@, i as int));
            sum_others = match sum_others.checked_add(share) {
                Some(s) => s,
                None => {
                    proof {
                        assert(equal_others_prefix(values@, i + 1) == equal_others_prefix(
                            values@,
                            i as int,
                        ) + equal_share(values@, i as int));
                        assert(!in_i128(equal_others_prefix(values@, i + 1)));
                    }
                    return Err(Error::CalculationFailed);
                },
            };
        }
        i = i + 1;
    }
    if sum_others == i128::MIN {
        return Err(Error::CalculationFailed);
    }
    let neg = -sum_others;

    // Write phase: every check has passed, so nothing below can fail.
    let mut i: usize = 0;
    while i < m
        invariant
            i <= m,
            m == values@.len(),
            m >= 2,
            n == m as i128,
            output@.len() == m,
            max_idx < m,
            max_idx as int == max_index(values@),
            max_v == values@[max_idx as int],
            numerator as int == (m as int) * (max_v as int) - sum_v,
            delta_v == division_delta(m as int, max_v as int, sum_v as int),
            sum_v == sum_seq(values@),
            forall|p: int|
                0 <= p < i && p != max_idx ==> #[trigger] output@[p] == equal_share(values@, p),
        decreases m - i,
    {
        if i != max_idx {
            proof {
                lemma_share_parts_fit(values@[i as int] as int, m as int, numerator as int);
                lemma_div_t_cases(values@[i as int] as int, n as int);
            }
            let q = values[i].checked_div(n).unwrap();
            let share = q + delta_v;
            assert(share == equal_share(values@, i as int));
            output.set(i, share);
        } else {
            output.set(i, 0);
        }
        i = i + 1;
    }
    output.set(max_idx, neg);
    proof {
        lemma_equal_alloc_prefix_sum(output@, values@, m as int);
        assert(output@.take(m as int) =~= output@);
    }
    Ok(())
}

/// Every weight is strictly positive.
pub open spec fn weights_positive(w: Seq<i128>) -> bool {
    forall|i: int| 0 <= i < w.len() ==> #[trigger] w[i] > 0
}

/// A sum of strictly positive integers is at least their count.
proof fn lemma_sum_weights_at_least_len(w: Seq<i128>)
    requires
        weights_positive(w),
    ensures
        sum_seq(w) >= w.len(),
    decreases w.len(),
{
    if w.len() > 0 {
        assert(forall|i: int| 0 <= i < w.len() - 1 ==> w.drop_last()[i] == w[i]);
        lemma_sum_weights_at_least_len(w.drop_last());
    }
}

/// Weighted allocation of a non-maximum participant: the bid divided by
/// the weight total, plus the correction term, scaled by the participant's
/// own weight.
pub open spec fn weighted_share(v: Seq<i128>, w: Seq<i128>, i: int) -> int
    recommends
        v.len() == w.len(),
        v.len() >= 2,
        0 <= i < v.len(),
{
    (div_t(v[i] as int, sum_seq(w)) + division_delta(
        sum_seq(w),
        v[max_index(v)] as int,
        weighted_sum(v, w),
    )) * (w[i] as int)
}

/// Running total of the weighted allocations of the first `upto`
/// participants, skipping the maximum-bid index.
pub open spec fn weighted_others_prefix(v: Seq<i128>, w: Seq<i128>, upto: int) -> int
    recommends
        v.len() == w.len(),
        v.len() >= 2,
        0 <= upto <= v.len(),
    decreases upto,
{
    if upto <= 0 {
        0
    } else {
        weighted_others_prefix(v, w, upto - 1) + (if upto - 1 == max_index(v) {
            0
        } else {
            weighted_share(v, w, upto - 1)
        })
    }
}

/// Every intermediate value of the weighted computation stays within the
/// wide signed integer range: the running weight total, each bid-weight
/// product and their running total, the correction term's multiplications
/// and subtraction, each scaled share, the running total of the
/// non-maximum allocations, and the final negation.
pub open spec fn weighted_fits(v: Seq<i128>, w: Seq<i128>) -> bool
    recommends
        v.len() == w.len(),
        v.len() >= 2,
{
    let n = sum_seq(w);
    let mx = v[max_index(v)] as int;
    &&& forall|i: int| 0 <= i <= w.len() ==> in_i128(sum_seq(#[trigger] w.take(i)))
    &&& forall|i: int| 0 <= i < v.len() ==> in_i128((#[trigger] v[i]) * w[i])
    &&& forall|i: int|
        0 <= i <= v.len() ==> in_i128(weighted_sum(#[trigger] v.take(i), w.take(i)))
    &&& in_i128(n * mx)
    &&& in_i128(n * n)
    &&& in_i128(n * mx - weighted_sum(v, w))
    &&& forall|i: int|
        0 <= i < v.len() && i != max_index(v) ==> in_i128(#[trigger] weighted_share(v, w, i))
    &&& forall|i: int| 0 <= i <= v.len() ==> in_i128(#[trigger] weighted_others_prefix(v, w, i))
    &&& in_i128(-weighted_others_prefix(v, w, v.len() as int))
}

/// Weighted twin of the prefix-sum argument: the written allocations sum
/// to the running non-maximum total, minus the full total once the
/// maximum index has been passed.
proof fn lemma_weighted_alloc_prefix_sum(out: Seq<i128>, v: Seq<i128>, w: Seq<i128>, p: int)
    requires
        out.len() == v.len(),
        v.len() == w.len(),
        v.len() >= 2,
        forall|i: int|
            0 <= i < v.len() && i != max_index(v) ==> #[trigger] out[i] == weighted_share(v, w, i),
        out[max_index(v)] == -weighted_others_prefix(v, w, v.len() as int),
        0 <= p <= v.len(),
    ensures
        sum_seq(out.take(p)) == weighted_others_prefix(v, w, p) + (if max_index(v) < p {
            -weighted_others_prefix(v, w, v.len() as int)
        } else {
            0
        }),
    decreases p,
{
    lemma_max_index_props(v);
    if p > 0 {
        lemma_weighted_alloc_prefix_sum(out, v, w, p - 1);
        assert(out.take(p).drop_last() =~= out.take(p - 1));
        assert(out.take(p).last() == out[p - 1]);
    }
}

/// With unit weights, prefix by prefix, the weight total counts the
/// participants and the weighted value total reduces to the plain total.
proof fn lemma_unit_weight_sums(v: Seq<i128>, w: Seq<i128>, p: int)
    requires
        v.len() == w.len(),
        forall|i: int| 0 <= i < w.len() ==> #[trigger] w[i] == 1,
        0 <= p <= v.len(),
    ensures
        sum_seq(w.take(p)) == p,
        weighted_sum(v.take(p), w.take(p)) == sum_seq(v.take(p)),
    decreases p,
{
    if p > 0 {
        lemma_unit_weight_sums(v, w, p - 1);
        assert(w.take(p).drop_last() =~= w.take(p - 1));
        assert(v.take(p).drop_last() =~= v.take(p - 1));
        assert(w.take(p).last() == w[p - 1]);
        assert(v.take(p).last() == v[p - 1]);
        assert(weighted_sum(v.take(p), w.take(p)) == weighted_sum(v.take(p - 1), w.take(p - 1))
            + v[p - 1] * w[p - 1]);
        assert(v[p - 1] * w[p - 1] == v[p - 1]) by {
            assert(w[p - 1] == 1);
            vstd::arithmetic::mul::lemma_mul_basics(v[p - 1] as int);
        }
        assert(sum_seq(v.take(p)) == sum_seq(v.take(p - 1)) + v[p - 1]);
    }
}

/// With unit weights, the running totals of the two allocation rules
/// agree prefix by prefix.
proof fn lemma_unit_weight_prefix(v: Seq<i128>, w: Seq<i128>, p: int)
    requires
        v.len() == w.len(),
        v.len() >= 2,
        forall|i: int| 0 <= i < w.len() ==> #[trigger] w[i] == 1,
        sum_seq(w) == v.len(),
        weighted_sum(v, w) == sum_seq(v),
        0 <= p <= v.len(),
    ensures
        weighted_others_prefix(v, w, p) == equal_others_prefix(v, p),
    decreases p,
{
    if p > 0 {
        lemma_unit_weight_prefix(v, w, p - 1);
    }
}

/// Consistency law: with every weight equal to the same constant, the
/// weighted allocation equals the equal-weight allocation scaled by that
/// constant.  Truncation makes the scaled forms differ for larger
/// constants, so the law is stated for the common weight one, where the
/// scaling is the identity: the weighted rule then produces exactly the
/// equal-weight allocation, share by share, and accepts or rejects
/// exactly the same inputs.
pub proof fn lemma_unit_weights_match_equal_weights(v: Seq<i128>, w: Seq<i128>)
    requires
        v.len() == w.len(),
        2 <= v.len() <= usize::MAX,
        forall|i: int| 0 <= i < w.len() ==> #[trigger] w[i] == 1,
    ensures
        forall|i: int|
            0 <= i < v.len() && i != max_index(v) ==> weighted_share(v, w, i) == equal_share(v, i),
        forall|p: int|
            0 <= p <= v.len() ==> weighted_others_prefix(v, w, p) == equal_others_prefix(v, p),
        weighted_fits(v, w) <==> equal_fits(v),
{
    lemma_max_index_props(v);
    lemma_unit_weight_sums(v, w, v.len() as int);
    assert(w.take(v.len() as int) =~= w);
    assert(v.take(v.len() as int) =~= v);
    assert(sum_seq(w) == v.len());
    assert(weighted_sum(v, w) == sum_seq(v));
    assert forall|i: int|
        0 <= i < v.len() && i != max_index(v) implies weighted_share(v, w, i) == equal_share(
        v,
        i,
    ) by {
        assert(weighted_share(v, w, i) == (div_t(v[i] as int, v.len() as int) + division_delta(
            v.len() as int,
            v[max_index(v)] as int,
            sum_seq(v),
        )) * 1);
    }
    assert forall|p: int|
        0 <= p <= v.len() implies weighted_others_prefix(v, w, p) == equal_others_prefix(
        v,
        p,
    ) by {
        lemma_unit_weight_prefix(v, w, p);
    }
    if equal_fits(v) {
        assert forall|i: int| 0 <= i <= w.len() implies in_i128(
            sum_seq(#[trigger] w.take(i)),
        ) by {
            lemma_unit_weight_sums(v, w, i);
        }
        assert forall|i: int| 0 <= i <= v.len() implies in_i128(
            weighted_sum(#[trigger] v.take(i), w.take(i)),
        ) by {
            lemma_unit_weight_sums(v, w, i);
        }
        assert forall|i: int|
            0 <= i < v.len() && i != max_index(v) implies in_i128(
            #[trigger] weighted_share(v, w, i),
        ) by {
            lemma_share_parts_fit(
                v[i] as int,
                v.len() as int,
                (v.len() as int) * (v[max_index(v)] as int) - sum_seq(v),
            );
        }
        assert(forall|i: int| 0 <= i < v.len() ==> in_i128((#[trigger] v[i]) * w[i]));
        assert(in_i128(sum_seq(w) * (v[max_index(v)] as int)));
        assert(in_i128(sum_seq(w) * sum_seq(w)));
        assert(in_i128(sum_seq(w) * (v[max_index(v)] as int) - weighted_sum(v, w)));
        assert forall|i: int| 0 <= i <= v.len() implies in_i128(
            #[trigger] weighted_others_prefix(v, w, i),
        ) by {
            assert(weighted_others_prefix(v, w, i) == equal_others_prefix(v, i));
            assert(in_i128(equal_others_prefix(v, i)));
        }
        assert(in_i128(-weighted_others_prefix(v, w, v.len() as int)));
        assert(weighted_fits(v, w));
    }
    if weighted_fits(v, w) {
        assert forall|i: int| 0 <= i <= v.len() implies in_i128(
            sum_seq(#[trigger] v.take(i)),
        ) by {
            lemma_unit_weight_sums(v, w, i);
            assert(in_i128(weighted_sum(v.take(i), w.take(i))));
        }
        assert(equal_fits(v));
    }
}

/// Computes the super-fair zero-sum allocation for weighted participants.
///
/// The population size is the weight total `n = Σ weights` rather than the
/// participant count; every participant except the first-scanned highest
/// bidder (highest by bid alone — weights play no part in the scan)
/// receives `(values[i] / n + delta) · weights[i]`; the highest bidder
/// receives the negated sum of everyone else's allocation, so the output
/// sums to exactly zero.  All validation and overflow detection happens
/// before anything is written: on failure the output buffer is untouched.
pub fn calculate_fair_division_weighted(
    values: &Vec<i128>,
    weights: &Vec<i128>,
    output: &mut Vec<i128>,
) -> (r: Result<(), Error>)
    ensures
        !(values@.len() != 0 && weights@.len() == values@.len() && old(output)@.len()
            == values@.len()) ==> r == Err::<(), Error>(Error::InvalidInput),
        (values@.len() != 0 && weights@.len() == values@.len() && old(output)@.len()
            == values@.len() && values@.len() < 2) ==> r == Err::<(), Error>(
            Error::NotEnoughParticipants,
        ),
        (values@.len() >= 2 && weights@.len() == values@.len() && old(output)@.len()
            == values@.len() && !weights_positive(weights@)) ==> r == Err::<(), Error>(
            Error::InvalidInput,
        ),
        (values@.len() >= 2 && weights@.len() == values@.len() && old(output)@.len()
            == values@.len() && weights_positive(weights@) && !weighted_fits(values@, weights@))
            ==> r == Err::<(), Error>(Error::CalculationFailed),
        r is Err ==> final(output)@ == old(output)@,
        r is Ok <==> (values@.len() >= 2 && weights@.len() == values@.len() && old(output)@.len()
            == values@.len() && weights_positive(weights@) && weighted_fits(values@, weights@)),
        r is Ok ==> final(output)@.len() == values@.len(),
        r is Ok ==> forall|i: int|
            0 <= i < values@.len() && i != max_index(values@) ==> #[trigger] final(output)@[i]
                == weighted_share(values@, weights@, i),
        r is Ok ==> final(output)@[max_index(values@)] == -weighted_others_prefix(
            values@,
            weights@,
            values@.len() as int,
        ),
        r is Ok ==> sum_seq(final(output)@) == 0,
{
    if values.len() == 0 || weights.len() == 0 || values.len() != weights.len() || output.len()
        != values.len() {
        return Err(Error::InvalidInput);
    }
    if values.len() < 2 {
        return Err(Error::NotEnoughParticipants);
    }
    let m = values.len();
    proof {
        lemma_max_index_props(values@);
    }

    // Every weight must be strictly positive.
    let mut idx: usize = 0;
    while idx < m
        invariant
            idx <= m,
            m == values@.len(),
            m == weights@.len(),
            2 <= m,
            old(output)@.len() == m,
            output@ == old(output)@,
            forall|p: int| 0 <= p < idx ==> #[trigger] weights@[p] > 0,
        decreases m - idx,
    {
        if weights[idx] <= 0 {
            return Err(Error::InvalidInput);
        }
        idx = idx + 1;
    }
    proof {
        lemma_sum_weights_at_least_len(weights@);
    }

    // The population size: the weight total, with overflow detected.
    let mut total_weight: i128 = 0;
    let mut idx: usize = 0;
    while idx < m
        invariant
            idx <= m,
            m == values@.len(),
            m == weights@.len(),
            2 <= m,
            old(output)@.len() == m,
            output@ == old(output)@,
            weights_positive(weights@),
            total_weight == sum_seq(weights@.take(idx as int)),
            forall|i: int| 0 <= i <= idx ==> in_i128(sum_seq(#[trigger] weights@.take(i))),
        decreases m - idx,
    {
        proof {
            assert(weights@.take(idx + 1).drop_last() =~= weights@.take(idx as int));
        }
        total_weight = match total_weight.checked_add(weights[idx]) {
            Some(s) => s,
            None => {
                return Err(Error::CalculationFailed);
            },
        };
        idx = idx + 1;
    }
    proof {
        assert(weights@.take(m as int) =~= weights@);
    }
    let n: i128 = total_weight;

    // Total weighted value Σ values[i]·weights[i], with overflow detected.
    let mut sum_v: i128 = 0;
    let mut idx: usize = 0;
    while idx < m
        invariant
            idx <= m,
            m == values@.len(),
            m == weights@.len(),
            2 <= m,
            old(output)@.len() == m,
            output@ == old(output)@,
            weights_positive(weights@),
            sum_v == weighted_sum(values@.take(idx as int), weights@.take(idx as int)),
            forall|i: int| 0 <= i < idx ==> in_i128((#[trigger] values@[i]) * weights@[i]),
            forall|i: int|
                0 <= i <= idx ==> in_i128(
                    weighted_sum(#[trigger] values@.take(i), weights@.take(i)),
                ),
        decreases m - idx,
    {
        proof {
            assert(values@.take(idx + 1).drop_last() =~= values@.take(idx as int));
            assert(weights@.take(idx + 1).drop_last() =~= weights@.take(idx as int));
        }
        let product = match values[idx].checked_mul(weights[idx]) {
            Some(p) => p,
            None => {
                return Err(Error::CalculationFailed);
            },
        };
        sum_v = match sum_v.checked_add(product) {
            Some(s) => s,
            None => {
                return Err(Error::CalculationFailed);
            },
        };
        idx = idx + 1;
    }
    proof {
        assert(values@.take(m as int) =~= values@);
        assert(weights@.take(m as int) =~= weights@);
    }

    // Highest bid and its first index; weights play no part here.
    let mut max_v: i128 = values[0];
    let mut max_idx: usize = 0;
    let mut i: usize = 1;
    while i < m
        invariant
            1 <= i <= m,
            m == values@.len(),
            max_idx < i,
            max_idx as int == max_index(values@.take(i as int)),
            max_v == values@[max_idx as int],
            output@ == old(output)@,
        decreases m - i,
    {
        proof {
            assert(values@.take(i + 1).drop_last() =~= values@.take(i as int));
        }
        if values[i] > max_v {
            max_v = values[i];
            max_idx = i;
        }
        i = i + 1;
    }
    proof {
        assert(values@.take(m as int) =~= values@);
    }

    // Correction term delta = (n·maxV − sumV) / n², with overflow detected.
    let n_max_v = match n.checked_mul(max_v) {
        Some(x) => x,
        None => {
            return Err(Error::CalculationFailed);
        },
    };
    let n_squared = match n.checked_mul(n) {
        Some(x) => x,
        None => {
            return Err(Error::CalculationFailed);
        },
    };
    let numerator = match n_max_v.checked_sub(sum_v) {
        Some(x) => x,
        None => {
            return Err(Error::CalculationFailed);
        },
    };
    proof {
        lemma_share_parts_fit(0, n as int, numerator as int);
        vstd::arithmetic::mul::lemma_mul_inequality(2, n as int, n as int);
    }
    let delta_v = numerator.checked_div(n_squared).unwrap();
    proof {
        lemma_div_t_cases(numerator as int, n_squared as int);
    }
    assert(delta_v == division_delta(n as int, max_v as int, sum_v as int));

    // Dry run: scaled shares and their running total, so overflow is
    // detected before anything is written.
    let mut sum_others: i128 = 0;
    let mut i: usize = 0;
    while i < m
        invariant
            i <= m,
            m == values@.len(),
            m == weights@.len(),
            m >= 2,
            old(output)@.len() == m,
            output@ == old(output)@,
            weights_positive(weights@),
            n == sum_seq(weights@),
            n >= 2,
            max_idx < m,
            max_idx as int == max_index(values@),
            max_v == values@[max_idx as int],
            sum_v == weighted_sum(values@, weights@),
            numerator as int == (n as int) * (max_v as int) - sum_v,
            delta_v == division_delta(n as int, max_v as int, sum_v as int),
            sum_others == weighted_others_prefix(values@, weights@, i as int),
            forall|p: int|
                0 <= p < i && p != max_idx ==> in_i128(
                    #[trigger] weighted_share(values@, weights@, p),
                ),
            forall|p: int|
                0 <= p <= i ==> in_i128(#[trigger] weighted_others_prefix(values@, weights@, p)),
        decreases m - i,
    {
        if i != max_idx {
            proof {
                lemma_share_parts_fit(values@[i as int] as int, n as int, numerator as int);
            }
            let q = values[i].checked_div(n).unwrap();
            proof {
                lemma_div_t_cases(values@[i as int] as int, n as int);
            }
            let inner = q + delta_v;
            assert(inner * weights@[i as int] == weighted_share(values@, weights@, i as int));
            let share = match inner.checked_mul(weights[i]) {
                Some(s) => s,
                None => {
                    proof {
                        assert(!in_i128(weighted_share(values@, weights@, i as int)));
                    }
                    return Err(Error::CalculationFailed);
                },
            };
            assert(share == weighted_share(values@, weights@, i as int));
            sum_others = match sum_others.checked_add(share) {
                Some(s) => s,
                None => {
                    proof {
                        assert(weighted_others_prefix(values@, weights@, i + 1)
                            == weighted_others_prefix(values@, weights@, i as int)
                            + weighted_share(values@, weights@, i as int));
                        assert(!in_i128(weighted_others_prefix(values@, weights@, i + 1)));
                    }
                    return Err(Error::CalculationFailed);
                },
            };
        }
        i = i + 1;
    }
    if sum_others == i128::MIN {
        return Err(Error::CalculationFailed);
    }
    let neg = -sum_others;

    // Write phase: every check has passed, so nothing below can fail.
    let mut i: usize = 0;
    while i < m
        invariant
            i <= m,
            m == values@.len(),
            m == weights@.len(),
            m >= 2,
            output@.len() == m,
            weights_positive(weights@),
            n == sum_seq(weights@),
            n >= 2,
            max_idx < m,
            max_idx as int == max_index(values@),
            max_v == values@[max_idx as int],
            sum_v == weighted_sum(values@, weights@),
            numerator as int == (n as int) * (max_v as int) - sum_v,
            delta_v == division_delta(n as int, max_v as int, sum_v as int),
            forall|i2: int|
                0 <= i2 < m && i2 != max_idx ==> in_i128(
                    #[trigger] weighted_share(values@, weights@, i2),
                ),
            forall|p: int|
                0 <= p < i && p != max_idx ==> #[trigger] output@[p] == weighted_share(
                    values@,
                    weights@,
                    p,
                ),
        decreases m - i,
    {
        if i != max_idx {
            proof {
                lemma_share_parts_fit(values@[i as int] as int, n as int, numerator as int);
                lemma_div_t_cases(values@[i as int] as int, n as int);
            }
            let q = values[i].checked_div(n).unwrap();
            let inner = q + delta_v;
            assert(inner * weights@[i as int] == weighted_share(values@, weights@, i as int));
            let share = inner.checked_mul(weights[i]).unwrap();
            assert(share == weighted_share(values@, weights@, i as int));
            output.set(i, share);
        } else {
            output.set(i, 0);
        }
        i = i + 1;
    }
    output.set(max_idx, neg);
    proof {
        lemma_weighted_alloc_prefix_sum(output@, values@, weights@, m as int);
        assert(output@.take(m as int) =~= output@);
    }
    Ok(())
}

} // verus!

