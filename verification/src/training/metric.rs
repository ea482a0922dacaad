//! How well predicted scores rank with their targets, over one batch.
use vstd::prelude::*;
use vstd::string::StringExecFns;

use crate::metric::Entry;
use crate::number::{average, Narrow, Number};
#[allow(unused_imports)]
use crate::number::{
    average_is, difference_is, product_is, quotient_is, ratio_is, sqrt_is, sum_is, widened_is,
};

verus! {

/// Input for the rank metric: the predicted score and the true target per row.
pub struct StockEvalInput<N> {
    pub predictions: Vec<N>,
    pub targets: Vec<N>,
}

/// `centered` is `values` less `mean`, each.
pub open spec fn centered_is<N: Number>(values: Seq<N>, mean: N, centered: Seq<N>) -> bool {
    &&& centered.len() == values.len()
    &&& forall|i: int|
        0 <= i < values.len() ==> difference_is(values[i], mean, #[trigger] centered[i])
}

/// `products` is `left` times `right`, each.
pub open spec fn products_are<N: Number>(left: Seq<N>, right: Seq<N>, products: Seq<N>) -> bool {
    &&& products.len() == left.len()
    &&& forall|i: int|
        0 <= i < left.len() ==> product_is(left[i], right[i], #[trigger] products[i])
}

/// `moment` is the mean product of two columns.
pub open spec fn moment_is<N: Number>(left: Seq<N>, right: Seq<N>, moment: N) -> bool {
    exists|products: Seq<N>| #[trigger]
        products_are(left, right, products) && average_is(products, moment)
}

/// `correlation` is a covariance over the product of two standard deviations, kept off zero
/// by a trillionth.
pub open spec fn pearson_is<N: Number>(
    covariance: N,
    left_variance: N,
    right_variance: N,
    correlation: N,
) -> bool {
    exists|left: N, right: N, spread: N, slack: N, whole: N|
        {
            &&& sqrt_is(left_variance, left)
            &&& sqrt_is(right_variance, right)
            &&& product_is(left, right, spread)
            &&& ratio_is(1, 1_000_000_000_000, slack)
            &&& sum_is(spread, slack, whole)
            &&& quotient_is(covariance, whole, correlation)
        }
}

/// `correlation` is the Pearson correlation of two centered columns: their moments in the
/// columns' own format, the quotient in the wider one.
pub open spec fn centered_correlation_is<N: Narrow>(
    left: Seq<N>,
    right: Seq<N>,
    correlation: N::Wide,
) -> bool {
    exists|
        covariance: N,
        left_variance: N,
        right_variance: N,
        wide_covariance: N::Wide,
        wide_left: N::Wide,
        wide_right: N::Wide,
    |
        {
            &&& moment_is(left, right, covariance)
            &&& moment_is(left, left, left_variance)
            &&& moment_is(right, right, right_variance)
            &&& #[trigger] widened_is(covariance, wide_covariance)
            &&& #[trigger] widened_is(left_variance, wide_left)
            &&& #[trigger] widened_is(right_variance, wide_right)
            &&& pearson_is(wide_covariance, wide_left, wide_right, correlation)
        }
}

/// `correlation` is the Pearson correlation between scores and targets.
pub open spec fn correlation_is<N: Narrow>(
    predictions: Seq<N>,
    targets: Seq<N>,
    correlation: N::Wide,
) -> bool {
    exists|mean_prediction: N, mean_target: N, left: Seq<N>, right: Seq<N>|
        {
            &&& average_is(predictions, mean_prediction)
            &&& average_is(targets, mean_target)
            &&& #[trigger] centered_is(predictions, mean_prediction, left)
            &&& #[trigger] centered_is(targets, mean_target, right)
            &&& centered_correlation_is(left, right, correlation)
        }
}

/// `values` less `mean`, each.
fn centered<N: Number>(values: &Vec<N>, mean: N) -> (centered: Vec<N>)
    ensures
        centered_is(values@, mean, centered@),
{
    let mut centered: Vec<N> = Vec::new();
    let mut at: usize = 0;
    while at < values.len()
        invariant
            at <= values.len(),
            centered@.len() == at,
            forall|i: int| 0 <= i < at ==> difference_is(values@[i], mean, #[trigger] centered@[i]),
        decreases values.len() - at,
    {
        centered.push(values[at].minus(mean));
        at = at + 1;
    }
    centered
}

/// Mean product of two columns.
fn moment<N: Number>(left: &Vec<N>, right: &Vec<N>) -> (moment: N)
    requires
        left@.len() == right@.len(),
    ensures
        moment_is(left@, right@, moment),
{
    let mut products: Vec<N> = Vec::new();
    let mut at: usize = 0;
    while at < left.len()
        invariant
            at <= left.len(),
            left@.len() == right@.len(),
            products@.len() == at,
            forall|i: int| 0 <= i < at ==> product_is(left@[i], right@[i], #[trigger] products@[i]),
        decreases left.len() - at,
    {
        products.push(left[at].times(right[at]));
        at = at + 1;
    }
    assert(products_are(left@, right@, products@));
    average(&products)
}

/// A covariance over the product of two standard deviations, kept off zero.
fn pearson<N: Number>(covariance: N, left_variance: N, right_variance: N) -> (correlation: N)
    ensures
        pearson_is(covariance, left_variance, right_variance, correlation),
{
    let spread = left_variance.sqrt().times(right_variance.sqrt());
    covariance.over(spread.plus(N::from_ratio(1, 1_000_000_000_000)))
}

/// Pearson correlation between the predicted score and the target over the batch, the
/// information coefficient that tracks ranking quality.
pub struct CorrelationMetric<N: Narrow> {
    pub name: String,
    /// The entry of the last batch, if there was one since the start.
    pub last: Option<Entry<N::Wide>>,
}

impl<N: Narrow> CorrelationMetric<N> {
    /// The metric before its first batch.
    pub fn new() -> (metric: Self)
        ensures
            metric.name@ == "Correlation"@,
            metric.last is None,
    {
        CorrelationMetric { name: String::from_str("Correlation"), last: None }
    }

    /// Evaluate one batch.
    pub fn update(&mut self, input: &StockEvalInput<N>) -> (entry: Entry<N::Wide>)
        requires
            input.predictions@.len() == input.targets@.len(),
        ensures
            correlation_is(input.predictions@, input.targets@, entry.value),
            entry.count == input.predictions@.len(),
            final(self).last == Some(entry),
            final(self).name == old(self).name,
    {
        let mean_prediction = average(&input.predictions);
        let mean_target = average(&input.targets);
        let left = centered(&input.predictions, mean_prediction);
        let right = centered(&input.targets, mean_target);
        let covariance = moment(&left, &right);
        let left_variance = moment(&left, &left);
        let right_variance = moment(&right, &right);
        let wide_covariance = covariance.widened();
        let wide_left = left_variance.widened();
        let wide_right = right_variance.widened();
        let correlation = pearson(wide_covariance, wide_left, wide_right);
        proof {
            assert(widened_is(covariance, wide_covariance));
            assert(widened_is(left_variance, wide_left));
            assert(widened_is(right_variance, wide_right));
            assert(centered_correlation_is(left@, right@, correlation));
            assert(centered_is(input.predictions@, mean_prediction, left@));
            assert(centered_is(input.targets@, mean_target, right@));
        }
        let entry = Entry { value: correlation, count: input.predictions.len() };
        self.last = Some(entry);
        entry
    }

    /// Forget the last batch.
    pub fn clear(&mut self)
        ensures
            final(self).last is None,
            final(self).name == old(self).name,
    {
        self.last = None;
    }
}

} // verus!
