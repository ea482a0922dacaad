//! What the metrics of a batch say of its predictions.
use vstd::prelude::*;

use crate::metric::BUY;
#[allow(unused_imports)]
use crate::metric::{
    argmax_is, expected_value_is, hit_count, mark, payoff_is, percent_of, precision_is,
    predicted_count,
};
use crate::number::{Narrow, Number};
#[allow(unused_imports)]
use crate::number::{
    average_is, difference_is, empty_sum_is, exact, exceeds_is, product_is, quotient_is, ratio_is,
    sqrt_is, sum_is, total_is, widened_is,
};
#[allow(unused_imports)]
use crate::reals::{
    has_roots, keeps_value, lemma_quotient, lemma_ratio, lemma_whole, real_sum, reals, square_sum,
    totals_are_sums,
};
#[allow(unused_imports)]
use crate::training::metric::{
    centered_correlation_is, centered_is, correlation_is, moment_is, pearson_is, products_are,
};

verus! {

/// In an exact format the predicted class has the largest logit, and the first of several.
pub proof fn argmax_is_the_first_largest<N: Number>(
    value: spec_fn(N) -> real,
    logits: Seq<N>,
    class: int,
)
    requires
        exact(value),
        logits.len() > 0,
        argmax_is(logits, class),
    ensures
        0 <= class < logits.len(),
        forall|i: int|
            0 <= i < logits.len() ==> value(#[trigger] logits[i]) <= value(logits[class]),
        forall|i: int| 0 <= i < class ==> value(#[trigger] logits[i]) < value(logits[class]),
    decreases logits.len(),
{
    if logits.len() > 1 {
        let shorter = logits.drop_last();
        let (earlier, above) = choose|earlier: int, above: bool|
            {
                &&& argmax_is(shorter, earlier)
                &&& #[trigger] exceeds_is(logits.last(), logits[earlier], above)
                &&& class == if above {
                    logits.len() - 1
                } else {
                    earlier
                }
            };
        argmax_is_the_first_largest(value, shorter, earlier);
        assert forall|i: int| 0 <= i < logits.len() implies value(#[trigger] logits[i]) <= value(
            logits[class],
        ) by {
            if i < shorter.len() {
                assert(logits[i] == shorter[i]);
            }
        }
        assert forall|i: int| 0 <= i < class implies value(#[trigger] logits[i]) < value(
            logits[class],
        ) by {
            assert(logits[i] == shorter[i]);
        }
    }
}

/// What the rows predicted as Buy earned together, each less the fee.
pub open spec fn bought_payoff<N>(
    value: spec_fn(N) -> real,
    predictions: Seq<usize>,
    rewards: Seq<N>,
    fee: N,
) -> real
    decreases predictions.len(),
{
    if predictions.len() == 0 {
        0 as real
    } else {
        let at = predictions.len() - 1;
        bought_payoff(value, predictions.drop_last(), rewards, fee) + if predictions[at] == 2 {
            value(rewards[at]) - value(fee)
        } else {
            0 as real
        }
    }
}

/// How many of the rows were predicted as `class`.
pub open spec fn times_predicted(predictions: Seq<usize>, class: usize) -> nat {
    predictions.filter(|predicted: usize| predicted == class).len()
}

proof fn lemma_times_predicted(predictions: Seq<usize>, class: usize)
    ensures
        predicted_count(predictions, class) == times_predicted(predictions, class)
            <= predictions.len(),
    decreases predictions.len(),
{
    reveal(Seq::filter);
    if predictions.len() > 0 {
        lemma_times_predicted(predictions.drop_last(), class);
    }
}

proof fn lemma_payoffs<N: Number>(
    value: spec_fn(N) -> real,
    predictions: Seq<usize>,
    rewards: Seq<N>,
    fee: N,
    payoffs: Seq<N>,
)
    requires
        exact(value),
        payoffs.len() == predictions.len(),
        forall|i: int|
            0 <= i < payoffs.len() ==> payoff_is(
                predictions[i],
                rewards[i],
                fee,
                #[trigger] payoffs[i],
            ),
    ensures
        real_sum(reals(value, payoffs)) == bought_payoff(value, predictions, rewards, fee),
    decreases predictions.len(),
{
    if predictions.len() > 0 {
        let at = predictions.len() - 1;
        let (fewer, less) = (predictions.drop_last(), payoffs.drop_last());
        assert forall|i: int| 0 <= i < less.len() implies payoff_is(
            fewer[i],
            rewards[i],
            fee,
            #[trigger] less[i],
        ) by {
            assert(payoff_is(predictions[i], rewards[i], fee, payoffs[i]));
        }
        lemma_payoffs(value, fewer, rewards, fee, less);
        assert(payoff_is(predictions[at], rewards[at], fee, payoffs[at]));
        let (net, flag) = choose|net: N, flag: N|
            {
                &&& difference_is(rewards[at], fee, net)
                &&& ratio_is(mark(predictions[at], BUY), 1, flag)
                &&& product_is(net, flag, payoffs[at])
            };
        lemma_whole(value, mark(predictions[at], BUY), flag);
        let (n, f, p) = (value(net), value(flag), value(payoffs[at]));
        if predictions[at] == 2 {
            assert(p == n) by (nonlinear_arith)
                requires
                    p == n * f,
                    f == 1 as real,
            ;
        } else {
            assert(p == 0 as real) by (nonlinear_arith)
                requires
                    p == n * f,
                    f == 0 as real,
            ;
        }
        assert(reals(value, payoffs).drop_last() =~= reals(value, less));
    }
}

proof fn lemma_percent<N: Number>(value: spec_fn(N) -> real, part: N, count: nat, percent: N)
    requires
        exact(value),
        percent_of(part, count, percent),
        count <= u64::MAX,
    ensures
        count > 0 ==> value(percent) * (count as int as real) == 100 as real * value(part),
        count == 0 ==> value(percent) == 0 as real,
{
    if count == 0 {
        lemma_whole(value, 0, percent);
    } else {
        let (hundred, scaled, whole) = choose|hundred: N, scaled: N, whole: N|
            {
                &&& ratio_is(100, 1, hundred)
                &&& product_is(hundred, part, scaled)
                &&& ratio_is(count as u64, 1, whole)
                &&& quotient_is(scaled, whole, percent)
            };
        lemma_whole(value, 100, hundred);
        lemma_whole(value, count as u64, whole);
        lemma_quotient(value, scaled, whole, percent);
    }
}

/// In exact formats the expected value times the number of Buy calls is a hundred times what
/// those rows earned less the fee of each; it is zero without a Buy call.
pub proof fn expected_value_is_the_mean_payoff_of_a_buy<N: Narrow>(
    value: spec_fn(N) -> real,
    wide: spec_fn(N::Wide) -> real,
    predictions: Seq<usize>,
    rewards: Seq<N>,
    fee: N,
    result: N::Wide,
)
    requires
        exact(value),
        exact(wide),
        keeps_value(value, wide),
        predictions.len() == rewards.len() <= u64::MAX,
        expected_value_is(predictions, rewards, fee, result),
    ensures
        times_predicted(predictions, 2) > 0 ==> wide(result) * (times_predicted(
            predictions,
            2,
        ) as int as real) == 100 as real * bought_payoff(value, predictions, rewards, fee),
        times_predicted(predictions, 2) == 0 ==> wide(result) == 0 as real,
{
    let (payoffs, start, total, broad) = choose|
        payoffs: Seq<N>,
        start: N,
        total: N,
        broad: N::Wide,
    |
        {
            &&& payoffs.len() == predictions.len()
            &&& forall|i: int|
                0 <= i < payoffs.len() ==> payoff_is(
                    predictions[i],
                    rewards[i],
                    fee,
                    #[trigger] payoffs[i],
                )
            &&& empty_sum_is(start)
            &&& #[trigger] total_is(start, payoffs, total)
            &&& #[trigger] widened_is(total, broad)
            &&& percent_of(broad, predicted_count(predictions, BUY), result)
        };
    lemma_times_predicted(predictions, 2);
    lemma_payoffs(value, predictions, rewards, fee, payoffs);
    totals_are_sums(value, start, payoffs, total);
    lemma_percent(wide, broad, predicted_count(predictions, BUY), result);
}

/// How many of the rows were predicted as `class` and are of it.
pub open spec fn times_hit(predictions: Seq<usize>, targets: Seq<usize>, class: usize) -> nat {
    Seq::new(predictions.len(), |i: int| (predictions[i], targets[i])).filter(
        |row: (usize, usize)| row.0 == class && row.1 == class,
    ).len()
}

proof fn lemma_times_hit(predictions: Seq<usize>, targets: Seq<usize>, class: usize)
    ensures
        hit_count(predictions, targets, class) == times_hit(predictions, targets, class)
            <= predictions.len(),
    decreases predictions.len(),
{
    reveal(Seq::filter);
    if predictions.len() > 0 {
        let shorter = predictions.drop_last();
        lemma_times_hit(shorter, targets, class);
        assert(Seq::new(predictions.len(), |i: int| (predictions[i], targets[i])).drop_last()
            =~= Seq::new(shorter.len(), |i: int| (shorter[i], targets[i])));
    }
}

/// In an exact format the precision of a class times the number of its calls is a hundred
/// times the number of those that were right; it is zero without a call.
pub proof fn precision_is_the_share_of_right_calls<N: Number>(
    value: spec_fn(N) -> real,
    predictions: Seq<usize>,
    targets: Seq<usize>,
    class: usize,
    result: N,
)
    requires
        exact(value),
        predictions.len() == targets.len() <= u64::MAX,
        precision_is(predictions, targets, class, result),
    ensures
        times_predicted(predictions, class) > 0 ==> value(result) * (times_predicted(
            predictions,
            class,
        ) as int as real) == 100 as real * (times_hit(predictions, targets, class) as int as real),
        times_predicted(predictions, class) == 0 ==> value(result) == 0 as real,
{
    lemma_times_predicted(predictions, class);
    lemma_times_hit(predictions, targets, class);
    let part = choose|part: N| #[trigger]
        ratio_is(hit_count(predictions, targets, class) as u64, 1, part) && percent_of(
            part,
            predicted_count(predictions, class),
            result,
        );
    lemma_whole(value, hit_count(predictions, targets, class) as u64, part);
    lemma_percent(value, part, predicted_count(predictions, class), result);
}

/// The products of the distances of two columns from their centers, added up.
pub open spec fn cross_sum(left: Seq<real>, a: real, right: Seq<real>, b: real) -> real
    decreases left.len(),
{
    if left.len() == 0 {
        0 as real
    } else {
        cross_sum(left.drop_last(), a, right.drop_last(), b) + (left.last() - a) * (right.last()
            - b)
    }
}

proof fn lemma_average<N: Number>(value: spec_fn(N) -> real, values: Seq<N>, mean: N)
    requires
        exact(value),
        average_is(values, mean),
        0 < values.len() <= u64::MAX,
    ensures
        value(mean) * (values.len() as int as real) == real_sum(reals(value, values)),
{
    let (start, total, count) = choose|start: N, total: N, count: N|
        {
            &&& empty_sum_is(start)
            &&& #[trigger] total_is(start, values, total)
            &&& ratio_is(values.len() as u64, 1, count)
            &&& #[trigger] quotient_is(total, count, mean)
        };
    lemma_whole(value, values.len() as u64, count);
    totals_are_sums(value, start, values, total);
    lemma_quotient(value, total, count, mean);
}

proof fn lemma_cross<N: Number>(
    value: spec_fn(N) -> real,
    x: Seq<N>,
    a: N,
    left: Seq<N>,
    y: Seq<N>,
    b: N,
    right: Seq<N>,
    products: Seq<N>,
)
    requires
        exact(value),
        x.len() == y.len(),
        centered_is(x, a, left),
        centered_is(y, b, right),
        products_are(left, right, products),
    ensures
        real_sum(reals(value, products)) == cross_sum(
            reals(value, x),
            value(a),
            reals(value, y),
            value(b),
        ),
    decreases x.len(),
{
    if x.len() > 0 {
        let last = x.len() - 1;
        let (p, l, q, r, s) = (
            x.drop_last(),
            left.drop_last(),
            y.drop_last(),
            right.drop_last(),
            products.drop_last(),
        );
        assert forall|i: int| 0 <= i < p.len() implies difference_is(p[i], a, #[trigger] l[i]) by {
            assert(difference_is(x[i], a, left[i]));
        }
        assert forall|i: int| 0 <= i < q.len() implies difference_is(q[i], b, #[trigger] r[i]) by {
            assert(difference_is(y[i], b, right[i]));
        }
        assert forall|i: int| 0 <= i < l.len() implies product_is(l[i], r[i], #[trigger] s[i]) by {
            assert(product_is(left[i], right[i], products[i]));
        }
        lemma_cross(value, p, a, l, q, b, r, s);
        assert(difference_is(x[last], a, left[last]));
        assert(difference_is(y[last], b, right[last]));
        assert(product_is(left[last], right[last], products[last]));
        assert(reals(value, products).drop_last() =~= reals(value, s));
        assert(reals(value, x).drop_last() =~= reals(value, p));
        assert(reals(value, y).drop_last() =~= reals(value, q));
    }
}

proof fn lemma_moment<N: Number>(
    value: spec_fn(N) -> real,
    x: Seq<N>,
    a: N,
    left: Seq<N>,
    y: Seq<N>,
    b: N,
    right: Seq<N>,
    moment: N,
)
    requires
        exact(value),
        0 < x.len() == y.len() <= u64::MAX,
        centered_is(x, a, left),
        centered_is(y, b, right),
        moment_is(left, right, moment),
    ensures
        value(moment) * (x.len() as int as real) == cross_sum(
            reals(value, x),
            value(a),
            reals(value, y),
            value(b),
        ),
{
    let products = choose|products: Seq<N>| #[trigger]
        products_are(left, right, products) && average_is(products, moment);
    lemma_cross(value, x, a, left, y, b, right, products);
    lemma_average(value, products, moment);
}

proof fn lemma_cross_square(values: Seq<real>, center: real)
    ensures
        cross_sum(values, center, values, center) == square_sum(values, center) >= 0 as real,
    decreases values.len(),
{
    if values.len() > 0 {
        lemma_cross_square(values.drop_last(), center);
        let d = values.last() - center;
        assert(d * d >= 0 as real) by (nonlinear_arith);
    }
}

/// `c` is the correlation of `x` and `y`, whose means are `a` and `b` and whose standard
/// deviations are `left` and `right`.
pub open spec fn weighs(
    x: Seq<real>,
    y: Seq<real>,
    a: real,
    b: real,
    left: real,
    right: real,
    c: real,
) -> bool {
    let n = x.len() as int as real;
    &&& a * n == real_sum(x)
    &&& b * n == real_sum(y)
    &&& left >= 0 as real
    &&& right >= 0 as real
    &&& left * left * n == square_sum(x, a)
    &&& right * right * n == square_sum(y, b)
    &&& c * (left * right + 1 as real / 1_000_000_000_000 as real) * n == cross_sum(x, a, y, b)
}

/// In exact formats the correlation is that of Pearson: the mean product of both columns'
/// distances from their means, over the product of their standard deviations, to which a
/// trillionth is added.
pub proof fn correlation_weighs_common_moves_against_both_spreads<N: Narrow>(
    value: spec_fn(N) -> real,
    wide: spec_fn(N::Wide) -> real,
    predictions: Seq<N>,
    targets: Seq<N>,
    correlation: N::Wide,
)
    requires
        exact(value),
        exact(wide),
        has_roots(wide),
        keeps_value(value, wide),
        0 < predictions.len() == targets.len() <= u64::MAX,
        correlation_is(predictions, targets, correlation),
    ensures
        exists|a: real, b: real, left: real, right: real| #[trigger]
            weighs(
                reals(value, predictions),
                reals(value, targets),
                a,
                b,
                left,
                right,
                wide(correlation),
            ),
{
    let (a, b, left, right) = choose|a: N, b: N, left: Seq<N>, right: Seq<N>|
        {
            &&& average_is(predictions, a)
            &&& average_is(targets, b)
            &&& #[trigger] centered_is(predictions, a, left)
            &&& #[trigger] centered_is(targets, b, right)
            &&& centered_correlation_is(left, right, correlation)
        };
    let (covariance, u, v, wc, wu, wv) = choose|
        covariance: N,
        u: N,
        v: N,
        wc: N::Wide,
        wu: N::Wide,
        wv: N::Wide,
    |
        {
            &&& moment_is(left, right, covariance)
            &&& moment_is(left, left, u)
            &&& moment_is(right, right, v)
            &&& #[trigger] widened_is(covariance, wc)
            &&& #[trigger] widened_is(u, wu)
            &&& #[trigger] widened_is(v, wv)
            &&& pearson_is(wc, wu, wv, correlation)
        };
    let (x, y) = (reals(value, predictions), reals(value, targets));
    let n = predictions.len() as int as real;
    lemma_average(value, predictions, a);
    lemma_average(value, targets, b);
    lemma_moment(value, predictions, a, left, targets, b, right, covariance);
    lemma_moment(value, predictions, a, left, predictions, a, left, u);
    lemma_moment(value, targets, b, right, targets, b, right, v);
    lemma_cross_square(x, value(a));
    lemma_cross_square(y, value(b));
    let (fu, fv) = (wide(wu), wide(wv));
    assert(fu >= 0 as real) by (nonlinear_arith)
        requires
            fu * n >= 0 as real,
            n > 0 as real,
    ;
    assert(fv >= 0 as real) by (nonlinear_arith)
        requires
            fv * n >= 0 as real,
            n > 0 as real,
    ;
    let (p, q, spread, slack, whole) = choose|
        p: N::Wide,
        q: N::Wide,
        spread: N::Wide,
        slack: N::Wide,
        whole: N::Wide,
    |
        {
            &&& sqrt_is(wu, p)
            &&& sqrt_is(wv, q)
            &&& product_is(p, q, spread)
            &&& ratio_is(1, 1_000_000_000_000, slack)
            &&& sum_is(spread, slack, whole)
            &&& quotient_is(wc, whole, correlation)
        };
    lemma_ratio(wide, 1, 1_000_000_000_000, slack);
    let (l, r, c) = (wide(p), wide(q), wide(correlation));
    let e = 1 as real / 1_000_000_000_000 as real;
    assert(l * r >= 0 as real) by (nonlinear_arith)
        requires
            l >= 0 as real,
            r >= 0 as real,
    ;
    lemma_quotient(wide, wc, whole, correlation);
    assert(wide(whole) == l * r + e);
    assert(c * (l * r + e) * n == cross_sum(x, value(a), y, value(b)));
    assert(l * l * n == square_sum(x, value(a)));
    assert(r * r * n == square_sum(y, value(b)));
    assert(weighs(x, y, value(a), value(b), l, r, c));
}

} // verus!
