//! Trade-aware metrics over one batch, on plain rows.
use vstd::prelude::*;
use vstd::string::StringExecFns;

use crate::number::{total, Narrow, Number};
#[allow(unused_imports)]
use crate::number::{
    difference_is, empty_sum_is, exceeds_is, product_is, quotient_is, ratio_is, total_is,
    widened_is,
};

pub mod meaning;

verus! {

/// Buy class index.
pub const BUY: usize = 2;

/// The first place whose logit no other exceeds so far, walking from the left, is `class`.
pub open spec fn argmax_is<N: Number>(logits: Seq<N>, class: int) -> bool
    decreases logits.len(),
{
    if logits.len() <= 1 {
        class == 0
    } else {
        exists|earlier: int, above: bool|
            {
                &&& argmax_is(logits.drop_last(), earlier)
                &&& #[trigger] exceeds_is(logits.last(), logits[earlier], above)
                &&& class == if above {
                    logits.len() - 1
                } else {
                    earlier
                }
            }
    }
}

/// The class with the largest logit, the first of several.
pub fn argmax<N: Number>(logits: &Vec<N>) -> (class: usize)
    requires
        logits@.len() > 0,
    ensures
        argmax_is(logits@, class as int),
        class < logits@.len(),
{
    let mut class: usize = 0;
    let mut at: usize = 1;
    while at < logits.len()
        invariant
            1 <= at <= logits.len(),
            class < at,
            argmax_is(logits@.take(at as int), class as int),
        decreases logits.len() - at,
    {
        let ghost longer = logits@.take(at + 1);
        let ghost earlier = class as int;
        let above = logits[at].exceeds(logits[class]);
        assert(longer.drop_last() =~= logits@.take(at as int));
        assert(exceeds_is(longer.last(), longer[earlier], above));
        if above {
            class = at;
        }
        at = at + 1;
    }
    assert(logits@.take(at as int) =~= logits@);
    class
}

/// One where the row was predicted as `class`, zero elsewhere.
pub open spec fn mark(predicted: usize, class: usize) -> u64 {
    if predicted == class {
        1
    } else {
        0
    }
}

/// How many of the rows were predicted as `class`.
pub open spec fn predicted_count(predictions: Seq<usize>, class: usize) -> nat
    decreases predictions.len(),
{
    if predictions.len() == 0 {
        0
    } else {
        predicted_count(predictions.drop_last(), class) + mark(predictions.last(), class) as nat
    }
}

/// Count the rows predicted as `class`.
fn count_predicted(predictions: &Vec<usize>, class: usize) -> (count: usize)
    ensures
        count == predicted_count(predictions@, class),
{
    let mut count: usize = 0;
    let mut at: usize = 0;
    while at < predictions.len()
        invariant
            count <= at <= predictions.len(),
            count == predicted_count(predictions@.take(at as int), class),
        decreases predictions.len() - at,
    {
        assert(predictions@.take(at + 1).drop_last() =~= predictions@.take(at as int));
        if predictions[at] == class {
            count = count + 1;
        }
        at = at + 1;
    }
    assert(predictions@.take(at as int) =~= predictions@);
    count
}

/// `percent` is a hundred times `part` over `count`, zero for a count of zero.
pub open spec fn percent_of<N: Number>(part: N, count: nat, percent: N) -> bool {
    if count == 0 {
        ratio_is(0, 1, percent)
    } else {
        exists|hundred: N, scaled: N, whole: N|
            {
                &&& ratio_is(100, 1, hundred)
                &&& product_is(hundred, part, scaled)
                &&& ratio_is(count as u64, 1, whole)
                &&& quotient_is(scaled, whole, percent)
            }
    }
}

/// A hundred times `part` over `count`, zero for a count of zero.
fn percent<N: Number>(part: N, count: usize) -> (percent: N)
    ensures
        percent_of(part, count as nat, percent),
{
    if count == 0 {
        N::from_ratio(0, 1)
    } else {
        N::from_ratio(100, 1).times(part).over(N::from_ratio(count as u64, 1))
    }
}

/// `payoff` is what a row earns: its reward less the fee if it was bought, nothing
/// otherwise.
pub open spec fn payoff_is<N: Number>(predicted: usize, reward: N, fee: N, payoff: N) -> bool {
    exists|net: N, flag: N|
        {
            &&& difference_is(reward, fee, net)
            &&& ratio_is(mark(predicted, BUY), 1, flag)
            &&& product_is(net, flag, payoff)
        }
}

/// `value` is the expected value per Buy trade in percent: the mean payoff over the rows
/// predicted as Buy. The payoffs are summed in their own format and averaged in the wider one.
pub open spec fn expected_value_is<N: Narrow>(
    predictions: Seq<usize>,
    rewards: Seq<N>,
    fee: N,
    value: N::Wide,
) -> bool {
    exists|payoffs: Seq<N>, start: N, total: N, wide: N::Wide|
        {
            &&& payoffs.len() == predictions.len()
            &&& forall|i: int|
                0 <= i < payoffs.len() ==> payoff_is(
                    predictions[i],
                    rewards[i],
                    fee,
                    #[trigger] payoffs[i],
                )
            &&& empty_sum_is(start)
            &&& #[trigger] total_is(start, payoffs, total)
            &&& #[trigger] widened_is(total, wide)
            &&& percent_of(wide, predicted_count(predictions, BUY), value)
        }
}

/// Expected value per Buy trade in percent, and the number of Buy trades it stands for.
///
/// Long only and per sample: a predicted Buy earns the row's reward minus the round-trip
/// fee, while Hold and Sell stay flat at zero.
pub fn expected_value<N: Narrow>(predictions: &Vec<usize>, rewards: &Vec<N>, fee: N) -> (entry: (
    N::Wide,
    usize,
))
    requires
        predictions@.len() == rewards@.len(),
    ensures
        expected_value_is(predictions@, rewards@, fee, entry.0),
        entry.1 == predicted_count(predictions@, BUY),
{
    let mut payoffs: Vec<N> = Vec::new();
    let mut at: usize = 0;
    while at < predictions.len()
        invariant
            at <= predictions.len(),
            predictions@.len() == rewards@.len(),
            payoffs@.len() == at,
            forall|i: int|
                0 <= i < at ==> payoff_is(predictions@[i], rewards@[i], fee, #[trigger] payoffs@[i]),
        decreases predictions.len() - at,
    {
        let flag: u64 = if predictions[at] == BUY {
            1
        } else {
            0
        };
        let payoff = rewards[at].minus(fee).times(N::from_ratio(flag, 1));
        assert(payoff_is(predictions@[at as int], rewards@[at as int], fee, payoff));
        payoffs.push(payoff);
        at = at + 1;
    }
    let start = N::empty_sum();
    let sum = total(start, &payoffs);
    let count = count_predicted(predictions, BUY);
    let wide = sum.widened();
    assert(total_is(start, payoffs@, sum));
    assert(widened_is(sum, wide));
    (percent(wide, count), count)
}

/// How many of the rows predicted as `class` are of that class.
pub open spec fn hit_count(predictions: Seq<usize>, targets: Seq<usize>, class: usize) -> nat
    decreases predictions.len(),
{
    if predictions.len() == 0 {
        0
    } else {
        hit_count(predictions.drop_last(), targets, class) + if predictions.last() == class
            && targets[predictions.len() - 1] == class {
            1nat
        } else {
            0nat
        }
    }
}

/// No class is hit more often than it is predicted.
pub proof fn hits_are_predictions(predictions: Seq<usize>, targets: Seq<usize>, class: usize)
    ensures
        hit_count(predictions, targets, class) <= predicted_count(predictions, class)
            <= predictions.len(),
    decreases predictions.len(),
{
    if predictions.len() > 0 {
        hits_are_predictions(predictions.drop_last(), targets, class);
    }
}

/// `value` is the precision of `class` in percent: of the rows predicted as it, the share
/// that are of it.
pub open spec fn precision_is<N: Number>(
    predictions: Seq<usize>,
    targets: Seq<usize>,
    class: usize,
    value: N,
) -> bool {
    exists|hits: N|
        {
            &&& #[trigger] ratio_is(hit_count(predictions, targets, class) as u64, 1, hits)
            &&& percent_of(hits, predicted_count(predictions, class), value)
        }
}

/// Precision for one action class in percent, and the number of predictions it stands for.
pub fn precision<N: Number>(predictions: &Vec<usize>, targets: &Vec<usize>, class: usize) -> (entry:
    (N, usize))
    requires
        predictions@.len() == targets@.len(),
    ensures
        precision_is(predictions@, targets@, class, entry.0),
        entry.1 == predicted_count(predictions@, class),
{
    let mut hits: usize = 0;
    let mut at: usize = 0;
    while at < predictions.len()
        invariant
            hits <= at <= predictions.len(),
            predictions@.len() == targets@.len(),
            hits == hit_count(predictions@.take(at as int), targets@, class),
        decreases predictions.len() - at,
    {
        assert(predictions@.take(at + 1).drop_last() =~= predictions@.take(at as int));
        if predictions[at] == class && targets[at] == class {
            hits = hits + 1;
        }
        at = at + 1;
    }
    assert(predictions@.take(at as int) =~= predictions@);
    let count = count_predicted(predictions, class);
    let part = N::from_ratio(hits as u64, 1);
    assert(ratio_is(hit_count(predictions@, targets@, class) as u64, 1, part));
    (percent(part, count), count)
}

/// Input shared by the trade-aware metrics: the class logits, the true class index, and the
/// signed forward return of each row.
pub struct StockEvalInput<N> {
    pub logits: Vec<Vec<N>>,
    pub targets: Vec<usize>,
    pub reward: Vec<N>,
}

impl<N: Number> StockEvalInput<N> {
    /// There is one target and one reward per row of logits, and every row has a logit.
    pub open spec fn wf(&self) -> bool {
        &&& self.targets@.len() == self.logits@.len()
        &&& self.reward@.len() == self.logits@.len()
        &&& forall|i: int| 0 <= i < self.logits@.len() ==> (#[trigger] self.logits@[i])@.len() > 0
    }

    /// Put the columns together.
    pub fn new(logits: Vec<Vec<N>>, targets: Vec<usize>, reward: Vec<N>) -> (input: Self)
        ensures
            input.logits == logits,
            input.targets == targets,
            input.reward == reward,
    {
        StockEvalInput { logits, targets, reward }
    }

    /// `predictions` are the classes with the largest logits, row by row.
    pub open spec fn predictions_are(&self, predictions: Seq<usize>) -> bool {
        &&& predictions.len() == self.logits@.len()
        &&& forall|i: int|
            0 <= i < predictions.len() ==> argmax_is(
                self.logits@[i]@,
                #[trigger] predictions[i] as int,
            )
    }

    /// The predicted class of each row.
    fn predictions(&self) -> (predictions: Vec<usize>)
        requires
            self.wf(),
        ensures
            self.predictions_are(predictions@),
    {
        let mut predictions: Vec<usize> = Vec::new();
        let mut at: usize = 0;
        while at < self.logits.len()
            invariant
                at <= self.logits.len(),
                self.wf(),
                predictions@.len() == at,
                forall|i: int|
                    0 <= i < at ==> argmax_is(self.logits@[i]@, #[trigger] predictions@[i] as int),
            decreases self.logits.len() - at,
        {
            assert(self.logits@[at as int]@.len() > 0);
            predictions.push(argmax(&self.logits[at]));
            at = at + 1;
        }
        predictions
    }
}

/// The value of a metric on one batch, and the number of rows it stands for.
#[derive(Clone, Copy)]
pub struct Entry<N> {
    pub value: N,
    pub count: usize,
}

/// Expected value per Buy trade of a batch, in percent, with the number of Buy trades as its
/// weight.
pub struct ExpectedValueMetric<N: Narrow> {
    pub name: String,
    pub fee: N,
    /// The entry of the last batch, if there was one since the start.
    pub last: Option<Entry<N::Wide>>,
}

impl<N: Narrow> ExpectedValueMetric<N> {
    /// The metric under a round-trip `fee`.
    pub fn new(fee: N) -> (metric: Self)
        ensures
            metric.name@ == "EV"@,
            metric.fee == fee,
            metric.last is None,
    {
        ExpectedValueMetric { name: String::from_str("EV"), fee, last: None }
    }

    /// Evaluate one batch.
    pub fn update(&mut self, input: &StockEvalInput<N>) -> (entry: Entry<N::Wide>)
        requires
            input.wf(),
        ensures
            exists|predictions: Seq<usize>|
                {
                    &&& #[trigger] input.predictions_are(predictions)
                    &&& expected_value_is(
                        predictions,
                        input.reward@,
                        old(self).fee,
                        entry.value,
                    )
                    &&& entry.count == predicted_count(predictions, BUY)
                },
            final(self).last == Some(entry),
            final(self).fee == old(self).fee,
            final(self).name == old(self).name,
    {
        let predictions = input.predictions();
        let (value, count) = expected_value(&predictions, &input.reward, self.fee);
        let entry = Entry { value, count };
        self.last = Some(entry);
        entry
    }

    /// Forget the last batch.
    pub fn clear(&mut self)
        ensures
            final(self).last is None,
            final(self).fee == old(self).fee,
            final(self).name == old(self).name,
    {
        self.last = None;
    }
}

/// Precision for one action class, in percent: of the rows predicted as this class, the
/// fraction whose true label matches.
pub struct PrecisionClassMetric<N: Narrow> {
    pub name: String,
    pub class: usize,
    /// The entry of the last batch, if there was one since the start.
    pub last: Option<Entry<N::Wide>>,
}

impl<N: Narrow> PrecisionClassMetric<N> {
    /// The metric of one class.
    pub fn new(class: usize, class_name: &str) -> (metric: Self)
        ensures
            metric.name@ == "Precision "@ + class_name@,
            metric.class == class,
            metric.last is None,
    {
        let mut name = String::from_str("Precision ");
        name.append(class_name);
        PrecisionClassMetric { name, class, last: None }
    }

    /// Evaluate one batch.
    pub fn update(&mut self, input: &StockEvalInput<N>) -> (entry: Entry<N::Wide>)
        requires
            input.wf(),
        ensures
            exists|predictions: Seq<usize>|
                {
                    &&& #[trigger] input.predictions_are(predictions)
                    &&& precision_is(
                        predictions,
                        input.targets@,
                        old(self).class,
                        entry.value,
                    )
                    &&& entry.count == predicted_count(predictions, old(self).class)
                },
            final(self).last == Some(entry),
            final(self).class == old(self).class,
            final(self).name == old(self).name,
    {
        let predictions = input.predictions();
        let (value, count) = precision(&predictions, &input.targets, self.class);
        let entry = Entry { value, count };
        self.last = Some(entry);
        entry
    }

    /// Forget the last batch.
    pub fn clear(&mut self)
        ensures
            final(self).last is None,
            final(self).class == old(self).class,
            final(self).name == old(self).name,
    {
        self.last = None;
    }
}

} // verus!
