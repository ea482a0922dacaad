//! The labeling layer: a forward maximum-favorable-excursion target, and a per-date
//! cross-sectional z-score of it, so the model learns to rank stocks rather than predict an
//! absolute move.
use vstd::prelude::*;

use crate::history::{copy_all, pick_entries, pick_features};
#[allow(unused_imports)]
use crate::history::{ascending, entries_at, features_at};
use crate::number::{average, total, widen_all, Narrow, Number};
#[allow(unused_imports)]
use crate::number::{
    average_is, difference_is, empty_sum_is, higher_is, narrowed_is, quotient_is, ratio_is,
    sqrt_is, sum_is, total_is, widened_all,
};
#[allow(unused_imports)]
use crate::portfolio::metrics::squared_distance_is;
use crate::store::{LabeledGroup, TickerGroup};

pub mod meaning;

verus! {

/// `peak` is the largest of the `count` values from `from` on, none of which is missing;
/// undefined if any of them is.
pub open spec fn peak_is<N: Number>(values: Seq<Option<N>>, from: int, count: nat, peak: N) -> bool
    decreases count,
{
    if count <= 1 {
        values[from] == Some(peak)
    } else {
        exists|earlier: N, value: N|
            {
                &&& peak_is(values, from, (count - 1) as nat, earlier)
                &&& values[from + count - 1] == Some(value)
                &&& #[trigger] higher_is(earlier, value, peak)
            }
    }
}

/// Whether the `count` values from `from` on are all present.
pub open spec fn all_present<N>(values: Seq<Option<N>>, from: int, count: int) -> bool {
    forall|i: int| from <= i < from + count ==> (#[trigger] values[i]) is Some
}

/// Row `at` has a full forward window of `horizon` bars: so many bars follow, none of their
/// highs is missing, nor is the next bar's low.
pub open spec fn has_outcome<N>(
    high: Seq<Option<N>>,
    low: Seq<Option<N>>,
    at: int,
    horizon: nat,
) -> bool {
    &&& at + horizon < high.len()
    &&& low[at + 1] is Some
    &&& all_present(high, at + 1, horizon as int)
}

/// `excursion` is the best move within `horizon` bars after row `at`: the highest high over
/// the next bar's low, less one.
pub open spec fn excursion_is<N: Number>(
    high: Seq<Option<N>>,
    low: Seq<Option<N>>,
    at: int,
    horizon: nat,
    excursion: N,
) -> bool {
    exists|peak: N, entry: N, growth: N, one: N|
        {
            &&& #[trigger] peak_is(high, at + 1, horizon, peak)
            &&& low[at + 1] == Some(entry)
            &&& #[trigger] quotient_is(peak, entry, growth)
            &&& ratio_is(1, 1, one)
            &&& #[trigger] difference_is(growth, one, excursion)
        }
}

/// `value` is the forward excursion of row `at`, missing where the row has no full forward
/// window.
pub open spec fn outcome_is<N: Number>(
    high: Seq<Option<N>>,
    low: Seq<Option<N>>,
    at: int,
    horizon: nat,
    value: Option<N>,
) -> bool {
    match value {
        Some(excursion) => has_outcome(high, low, at, horizon) && excursion_is(
            high,
            low,
            at,
            horizon,
            excursion,
        ),
        None => !has_outcome(high, low, at, horizon),
    }
}

/// `column` is the forward excursion of every row, missing for the rows that have no full
/// forward window: the last `horizon` of them, and those that a price is missing for.
pub open spec fn excursions_are<N: Number>(
    high: Seq<Option<N>>,
    low: Seq<Option<N>>,
    horizon: nat,
    column: Seq<Option<N>>,
) -> bool {
    &&& column.len() == high.len()
    &&& forall|at: int|
        0 <= at < column.len() ==> outcome_is(high, low, at, horizon, #[trigger] column[at])
}

/// The largest of the `horizon` values after `at`, undefined if any of them is; none if one
/// is missing.
fn peak_after<N: Number>(values: &Vec<Option<N>>, at: usize, horizon: usize) -> (peak: Option<N>)
    requires
        horizon >= 1,
        at + horizon < values@.len(),
    ensures
        match peak {
            Some(value) => all_present(values@, at + 1, horizon as int) && peak_is(
                values@,
                at + 1,
                horizon as nat,
                value,
            ),
            None => !all_present(values@, at + 1, horizon as int),
        },
{
    let rows = values.len();
    let mut peak = match values[at + 1] {
        None => {
            return None;
        },
        Some(value) => value,
    };
    let mut ahead: usize = 1;
    while ahead < horizon
        invariant
            1 <= ahead <= horizon,
            rows == values@.len(),
            at + horizon < rows,
            all_present(values@, at + 1, ahead as int),
            peak_is(values@, at + 1, ahead as nat, peak),
        decreases horizon - ahead,
    {
        let earlier = peak;
        match values[at + 1 + ahead] {
            None => {
                return None;
            },
            Some(value) => {
                peak = earlier.higher(value);
                assert(higher_is(earlier, value, peak));
            },
        }
        ahead = ahead + 1;
        assert(peak_is(values@, at + 1, (ahead as nat - 1) as nat, earlier));
    }
    Some(peak)
}

/// Forward maximum favorable excursion of one ticker: for entry at the next bar's low, the
/// best high within `horizon` bars over it, less one. The last `horizon` rows have none, nor
/// has a row whose window lacks a price.
pub fn forward_mfe<N: Number>(
    high: &Vec<Option<N>>,
    low: &Vec<Option<N>>,
    horizon: usize,
) -> (column: Vec<Option<N>>)
    requires
        horizon >= 1,
        high@.len() == low@.len(),
    ensures
        excursions_are(high@, low@, horizon as nat, column@),
{
    let rows = high.len();
    let mut column: Vec<Option<N>> = Vec::new();
    let mut at: usize = 0;
    while at < rows
        invariant
            at <= rows,
            rows == high@.len(),
            rows == low@.len(),
            horizon >= 1,
            column@.len() == at,
            forall|i: int|
                0 <= i < at ==> outcome_is(high@, low@, i, horizon as nat, #[trigger] column@[i]),
        decreases rows - at,
    {
        let mut value: Option<N> = None;
        if horizon < rows - at {
            if let (Some(peak), Some(entry)) = (peak_after(high, at, horizon), low[at + 1]) {
                let growth = peak.over(entry);
                let one = N::from_ratio(1, 1);
                let excursion = growth.minus(one);
                assert(peak_is(high@, at + 1, horizon as nat, peak));
                assert(quotient_is(peak, entry, growth));
                assert(difference_is(growth, one, excursion));
                value = Some(excursion);
            }
        }
        assert(outcome_is(high@, low@, at as int, horizon as nat, value));
        column.push(value);
        at = at + 1;
    }
    column
}

/// The present values of the first `count` rows that are dated `day`.
pub open spec fn peers<N>(dates: Seq<i32>, raw: Seq<Option<N>>, day: i32, count: nat) -> Seq<N>
    decreases count,
{
    if count == 0 {
        Seq::empty()
    } else {
        let earlier = peers(dates, raw, day, (count - 1) as nat);
        match raw[count - 1] {
            Some(value) if dates[count - 1] == day => earlier.push(value),
            _ => earlier,
        }
    }
}

/// `deviation` is the sample standard deviation of `values` about `mean`, which divides by
/// one less than their number; zero for fewer than two values.
pub open spec fn sample_deviation_is<N: Number>(values: Seq<N>, mean: N, deviation: N) -> bool {
    if values.len() < 2 {
        ratio_is(0, 1, deviation)
    } else {
        exists|squares: Seq<N>, start: N, total: N, degrees: N, variance: N|
            {
                &&& squares.len() == values.len()
                &&& forall|i: int|
                    0 <= i < values.len() ==> squared_distance_is(
                        values[i],
                        mean,
                        #[trigger] squares[i],
                    )
                &&& empty_sum_is(start)
                &&& #[trigger] total_is(start, squares, total)
                &&& ratio_is((values.len() - 1) as u64, 1, degrees)
                &&& #[trigger] quotient_is(total, degrees, variance)
                &&& sqrt_is(variance, deviation)
            }
    }
}

/// `score` is the distance of `value` from `mean` in deviations, kept off a division by zero
/// by a hundred-millionth.
pub open spec fn z_score_is<N: Number>(value: N, mean: N, deviation: N, score: N) -> bool {
    exists|distance: N, slack: N, width: N|
        {
            &&& difference_is(value, mean, distance)
            &&& ratio_is(1, 100_000_000, slack)
            &&& sum_is(deviation, slack, width)
            &&& quotient_is(distance, width, score)
        }
}

/// `mean` and `deviation` are those of `group`, computed in the wider format and rounded.
pub open spec fn spread_is<N: Narrow>(group: Seq<N>, mean: N, deviation: N) -> bool {
    exists|wide: Seq<N::Wide>, center: N::Wide, width: N::Wide|
        {
            &&& widened_all(group, wide)
            &&& #[trigger] average_is(wide, center)
            &&& #[trigger] sample_deviation_is(wide, center, width)
            &&& narrowed_is(center, mean)
            &&& narrowed_is(width, deviation)
        }
}

/// `score` is the z-score of `value` among `group`.
pub open spec fn ranked_in<N: Narrow>(value: N, group: Seq<N>, score: N) -> bool {
    exists|mean: N, deviation: N|
        {
            &&& #[trigger] spread_is(group, mean, deviation)
            &&& z_score_is(value, mean, deviation, score)
        }
}

/// `label` is the z-score of row `at` among the rows of its date; missing where the value is.
pub open spec fn label_is<N: Narrow>(
    dates: Seq<i32>,
    raw: Seq<Option<N>>,
    at: int,
    label: Option<N>,
) -> bool {
    let group = peers(dates, raw, dates[at], dates.len());
    match raw[at] {
        Some(value) => label matches Some(score) && ranked_in(value, group, score),
        None => label is None,
    }
}

/// The rows' present values on `day`.
fn peers_on<N: Number>(dates: &Vec<i32>, raw: &Vec<Option<N>>, day: i32) -> (group: Vec<N>)
    requires
        dates@.len() == raw@.len(),
    ensures
        group@ == peers(dates@, raw@, day, dates@.len()),
{
    let mut group: Vec<N> = Vec::new();
    let mut at: usize = 0;
    while at < dates.len()
        invariant
            at <= dates.len(),
            dates@.len() == raw@.len(),
            group@ =~= peers(dates@, raw@, day, at as nat),
        decreases dates.len() - at,
    {
        if let Some(value) = raw[at] {
            if dates[at] == day {
                group.push(value);
            }
        }
        at = at + 1;
    }
    group
}

/// Sample standard deviation of `values` about `mean`, zero for fewer than two values.
fn sample_deviation<N: Number>(values: &Vec<N>, mean: N) -> (deviation: N)
    ensures
        sample_deviation_is(values@, mean, deviation),
{
    if values.len() < 2 {
        return N::from_ratio(0, 1);
    }
    let mut squares: Vec<N> = Vec::new();
    let mut at: usize = 0;
    while at < values.len()
        invariant
            at <= values.len(),
            squares@.len() == at,
            forall|i: int|
                0 <= i < at ==> squared_distance_is(values@[i], mean, #[trigger] squares@[i]),
        decreases values.len() - at,
    {
        let distance = values[at].minus(mean);
        let square = distance.times(distance);
        assert(squared_distance_is(values@[at as int], mean, square));
        squares.push(square);
        at = at + 1;
    }
    let start = N::empty_sum();
    let spread = total(start, &squares);
    let degrees = N::from_ratio((values.len() - 1) as u64, 1);
    let variance = spread.over(degrees);
    assert(total_is(start, squares@, spread));
    assert(quotient_is(spread, degrees, variance));
    variance.sqrt()
}

/// The z-score of `value` among `group`.
fn rank_in<N: Narrow>(value: N, group: &Vec<N>) -> (score: N)
    ensures
        ranked_in(value, group@, score),
{
    let wide = widen_all(group);
    let center = average(&wide);
    let width = sample_deviation(&wide, center);
    let mean = N::narrowed(center);
    let deviation = N::narrowed(width);
    let score = value.minus(mean).over(deviation.plus(N::from_ratio(1, 100_000_000)));
    assert(average_is(wide@, center));
    assert(sample_deviation_is(wide@, center, width));
    assert(spread_is(group@, mean, deviation));
    assert(z_score_is(value, mean, deviation, score));
    score
}

/// Per-date cross-sectional z-score, dropping the market-wide move so only relative rank
/// remains.
pub fn zscore_label<N: Narrow>(dates: &Vec<i32>, raw: &Vec<Option<N>>) -> (labels: Vec<Option<N>>)
    requires
        dates@.len() == raw@.len(),
    ensures
        labels@.len() == dates@.len(),
        forall|at: int|
            0 <= at < dates@.len() ==> label_is(dates@, raw@, at, #[trigger] labels@[at]),
{
    let mut labels: Vec<Option<N>> = Vec::new();
    let mut at: usize = 0;
    while at < dates.len()
        invariant
            at <= dates.len(),
            dates@.len() == raw@.len(),
            labels@.len() == at,
            forall|i: int| 0 <= i < at ==> label_is(dates@, raw@, i, #[trigger] labels@[i]),
        decreases dates.len() - at,
    {
        let label = match raw[at] {
            None => None,
            Some(value) => {
                let group = peers_on(dates, raw, dates[at]);
                Some(rank_in(value, &group))
            },
        };
        assert(label_is(dates@, raw@, at as int, label));
        labels.push(label);
        at = at + 1;
    }
    labels
}

/// One ticker's columns that the label reads, in date order. A price may be missing.
pub struct LabelColumns<N> {
    pub dates: Vec<i32>,
    pub high: Vec<Option<N>>,
    pub low: Vec<Option<N>>,
}

impl<N> LabelColumns<N> {
    /// The columns have one entry per row.
    pub open spec fn wf(&self) -> bool {
        self.high@.len() == self.dates@.len() && self.low@.len() == self.dates@.len()
    }

    /// Row `at` has a full forward window of `horizon` bars.
    pub open spec fn has_outcome(&self, at: int, horizon: nat) -> bool {
        has_outcome(self.high@, self.low@, at, horizon)
    }
}

/// The dates of all tickers, one ticker after the other.
pub open spec fn long_dates<N>(tickers: Seq<LabelColumns<N>>) -> Seq<i32>
    decreases tickers.len(),
{
    if tickers.len() == 0 {
        Seq::empty()
    } else {
        long_dates(tickers.drop_last()) + tickers.last().dates@
    }
}

/// `raw` is the forward excursion of every row of all tickers, one ticker after the other.
pub open spec fn long_excursions_are<N: Number>(
    tickers: Seq<LabelColumns<N>>,
    horizon: nat,
    raw: Seq<Option<N>>,
) -> bool
    decreases tickers.len(),
{
    if tickers.len() == 0 {
        raw.len() == 0
    } else {
        exists|earlier: Seq<Option<N>>, column: Seq<Option<N>>|
            {
                &&& long_excursions_are(tickers.drop_last(), horizon, earlier)
                &&& #[trigger] excursions_are(
                    tickers.last().high@,
                    tickers.last().low@,
                    horizon,
                    column,
                )
                &&& raw == #[trigger] (earlier + column)
            }
    }
}

/// `labels` is the rank label of every row of the universe, one ticker after the other: the
/// per-date z-score of the forward excursion.
pub open spec fn rank_labels_are<N: Narrow>(
    tickers: Seq<LabelColumns<N>>,
    horizon: nat,
    labels: Seq<Option<N>>,
) -> bool {
    &&& labels.len() == long_dates(tickers).len()
    &&& exists|raw: Seq<Option<N>>|
        {
            &&& #[trigger] long_excursions_are(tickers, horizon, raw)
            &&& raw.len() == labels.len()
            &&& forall|at: int|
                0 <= at < labels.len() ==> label_is(
                    long_dates(tickers),
                    raw,
                    at,
                    #[trigger] labels[at],
                )
        }
}

/// The rank label of every row of the universe, one ticker after the other.
fn rank_labels<N: Narrow>(tickers: &Vec<LabelColumns<N>>, horizon: usize) -> (labels: Vec<
    Option<N>,
>)
    requires
        horizon >= 1,
        forall|t: int| 0 <= t < tickers@.len() ==> (#[trigger] tickers@[t]).wf(),
    ensures
        rank_labels_are(tickers@, horizon as nat, labels@),
{
    let mut dates: Vec<i32> = Vec::new();
    let mut raw: Vec<Option<N>> = Vec::new();
    let mut at: usize = 0;
    while at < tickers.len()
        invariant
            at <= tickers.len(),
            horizon >= 1,
            forall|t: int| 0 <= t < tickers@.len() ==> (#[trigger] tickers@[t]).wf(),
            dates@ =~= long_dates(tickers@.take(at as int)),
            long_excursions_are(tickers@.take(at as int), horizon as nat, raw@),
            raw@.len() == dates@.len(),
        decreases tickers.len() - at,
    {
        let ghost earlier = raw@;
        assert(tickers@[at as int].wf());
        assert(tickers@.take(at + 1).drop_last() =~= tickers@.take(at as int));
        let ticker = &tickers[at];
        let mut days = copy_all(&ticker.dates);
        dates.append(&mut days);
        let mut column = forward_mfe(&ticker.high, &ticker.low, horizon);
        let ghost found = column@;
        raw.append(&mut column);
        proof {
            let longer = tickers@.take(at + 1);
            assert(excursions_are(
                longer.last().high@,
                longer.last().low@,
                horizon as nat,
                found,
            ));
            assert(raw@ == earlier + found);
            assert(long_excursions_are(longer, horizon as nat, raw@));
        }
        at = at + 1;
    }
    assert(tickers@.take(at as int) =~= tickers@);
    let labels = zscore_label(&dates, &raw);
    assert(long_excursions_are(tickers@, horizon as nat, raw@));
    labels
}

/// The rows of one ticker that have a label, and the labels.
pub struct LabeledRows<N> {
    /// Which of the tickers it is.
    pub ticker: usize,
    /// The rows that are kept, ascending.
    pub rows: Vec<usize>,
    /// One label per kept row.
    pub labels: Vec<N>,
}

/// Where the rows of ticker `t` begin when all tickers stand one after the other.
pub open spec fn long_offset<N>(tickers: Seq<LabelColumns<N>>, t: int) -> nat {
    long_dates(tickers.take(t)).len()
}

/// Those of the `count` rows from `from` on that have a label, counted from `from`.
pub open spec fn labeled_upto<N>(labels: Seq<Option<N>>, from: nat, count: nat) -> Seq<usize>
    decreases count,
{
    if count == 0 {
        Seq::empty()
    } else {
        let earlier = labeled_upto(labels, from, (count - 1) as nat);
        if labels[from + count - 1] is Some {
            earlier.push((count - 1) as usize)
        } else {
            earlier
        }
    }
}

/// The rows of ticker `t` that have a label.
pub open spec fn labeled_rows<N>(
    tickers: Seq<LabelColumns<N>>,
    labels: Seq<Option<N>>,
    t: int,
) -> Seq<usize> {
    labeled_upto(labels, long_offset(tickers, t), tickers[t].dates@.len())
}

/// Those of the first `count` tickers that have a row with a label.
pub open spec fn labeled_tickers<N>(
    tickers: Seq<LabelColumns<N>>,
    labels: Seq<Option<N>>,
    count: nat,
) -> Seq<usize>
    decreases count,
{
    if count == 0 {
        Seq::empty()
    } else {
        let earlier = labeled_tickers(tickers, labels, (count - 1) as nat);
        if labeled_rows(tickers, labels, count - 1).len() > 0 {
            earlier.push((count - 1) as usize)
        } else {
            earlier
        }
    }
}

/// `entry` holds the labeled rows of its ticker and their labels.
pub open spec fn rows_are<N>(
    tickers: Seq<LabelColumns<N>>,
    labels: Seq<Option<N>>,
    entry: LabeledRows<N>,
) -> bool {
    let from = long_offset(tickers, entry.ticker as int);
    &&& entry.rows@ == labeled_rows(tickers, labels, entry.ticker as int)
    &&& entry.labels@.len() == entry.rows@.len()
    &&& forall|i: int|
        0 <= i < entry.labels@.len() ==> labels[from + entry.rows@[i]] == Some(
            #[trigger] entry.labels@[i],
        )
}

/// `kept` holds the labeled rows of the first `count` tickers, one entry for each ticker
/// that has any.
pub open spec fn kept_are<N>(
    tickers: Seq<LabelColumns<N>>,
    labels: Seq<Option<N>>,
    count: nat,
    kept: Seq<LabeledRows<N>>,
) -> bool {
    let names = labeled_tickers(tickers, labels, count);
    &&& kept.len() == names.len()
    &&& forall|k: int|
        0 <= k < kept.len() ==> (#[trigger] kept[k]).ticker == names[k] && rows_are(
            tickers,
            labels,
            kept[k],
        )
}

/// Label every row of the universe and keep the rows that have a label, by ticker. The label
/// is the per-date z-score of the forward excursion, so the score ranks the universe. A
/// ticker without a labeled row is left out.
pub fn load_labeled<N: Narrow>(tickers: &Vec<LabelColumns<N>>, horizon: usize) -> (kept: Vec<
    LabeledRows<N>,
>)
    requires
        horizon >= 1,
        forall|t: int| 0 <= t < tickers@.len() ==> (#[trigger] tickers@[t]).wf(),
    ensures
        exists|labels: Seq<Option<N>>| #[trigger]
            rank_labels_are(tickers@, horizon as nat, labels) && kept_are(
                tickers@,
                labels,
                tickers@.len(),
                kept@,
            ),
{
    let labels = rank_labels(tickers, horizon);
    let total = labels.len();
    let mut kept: Vec<LabeledRows<N>> = Vec::new();
    let mut from: usize = 0;
    let mut ticker: usize = 0;
    while ticker < tickers.len()
        invariant
            ticker <= tickers.len(),
            total == labels@.len() == long_dates(tickers@).len(),
            from == long_offset(tickers@, ticker as int),
            from <= total,
            kept_are(tickers@, labels@, ticker as nat, kept@),
        decreases tickers.len() - ticker,
    {
        let count = tickers[ticker].dates.len();
        proof {
            assert(tickers@.take(ticker + 1).drop_last() =~= tickers@.take(ticker as int));
            lemma_offset_within(tickers@, ticker + 1);
        }
        let mut rows: Vec<usize> = Vec::new();
        let mut values: Vec<N> = Vec::new();
        let mut row: usize = 0;
        while row < count
            invariant
                row <= count,
                from + count <= total == labels@.len(),
                rows@ == labeled_upto(labels@, from as nat, row as nat),
                values@.len() == rows@.len(),
                forall|i: int|
                    0 <= i < values@.len() ==> labels@[from + rows@[i]] == Some(
                        #[trigger] values@[i],
                    ),
            decreases count - row,
        {
            match labels[from + row] {
                None => {},
                Some(value) => {
                    rows.push(row);
                    values.push(value);
                },
            }
            row = row + 1;
        }
        if rows.len() > 0 {
            let ghost before = kept@;
            let entry = LabeledRows { ticker, rows, labels: values };
            assert(rows_are(tickers@, labels@, entry));
            kept.push(entry);
            assert forall|k: int| 0 <= k < kept@.len() implies (#[trigger] kept@[k]).ticker
                == labeled_tickers(tickers@, labels@, (ticker + 1) as nat)[k] && rows_are(
                tickers@,
                labels@,
                kept@[k],
            ) by {
                if k < before.len() {
                    assert(kept@[k] == before[k]);
                }
            }
        }
        from = from + count;
        ticker = ticker + 1;
    }
    kept
}

/// `tickers` are the columns of `groups` that the label reads.
pub open spec fn columns_are<N>(
    groups: Seq<TickerGroup<N>>,
    tickers: Seq<LabelColumns<N>>,
) -> bool {
    &&& tickers.len() == groups.len()
    &&& forall|t: int|
        0 <= t < groups.len() ==> {
            &&& (#[trigger] tickers[t]).dates@ == groups[t].dates@
            &&& tickers[t].high@ == groups[t].high@
            &&& tickers[t].low@ == groups[t].low@
        }
}

/// `labeled` holds the rows of `group` that `entry` lists, in every column, their rank labels
/// as rewards, and no action class.
pub open spec fn picked_from<N>(
    group: TickerGroup<N>,
    entry: LabeledRows<N>,
    labeled: LabeledGroup<N>,
) -> bool {
    &&& labeled.group.name@ == group.name@
    &&& labeled.group.dates@ == entries_at(group.dates@, entry.rows@)
    &&& labeled.group.features@ == features_at(group.features@, entry.rows@)
    &&& labeled.group.open@ == entries_at(group.open@, entry.rows@)
    &&& labeled.group.high@ == entries_at(group.high@, entry.rows@)
    &&& labeled.group.low@ == entries_at(group.low@, entry.rows@)
    &&& labeled.group.close@ == entries_at(group.close@, entry.rows@)
    &&& labeled.rewards@ == entry.labels@
    &&& labeled.labels@ == Seq::new(entry.rows@.len(), |i: int| 0u8)
}

/// Every group's rows come from the entry in the same place.
pub open spec fn all_picked<N>(
    groups: Seq<TickerGroup<N>>,
    kept: Seq<LabeledRows<N>>,
    labeled: Seq<LabeledGroup<N>>,
) -> bool {
    &&& labeled.len() == kept.len()
    &&& forall|k: int|
        0 <= k < kept.len() ==> picked_from(
            groups[kept[k].ticker as int],
            kept[k],
            #[trigger] labeled[k],
        )
}

/// The columns of `groups` that the label reads.
fn label_columns<N: Copy>(groups: &Vec<TickerGroup<N>>) -> (tickers: Vec<LabelColumns<N>>)
    ensures
        columns_are(groups@, tickers@),
{
    let mut tickers: Vec<LabelColumns<N>> = Vec::new();
    let mut at: usize = 0;
    while at < groups.len()
        invariant
            at <= groups.len(),
            tickers@.len() == at,
            forall|t: int|
                0 <= t < at ==> {
                    &&& (#[trigger] tickers@[t]).dates@ == groups@[t].dates@
                    &&& tickers@[t].high@ == groups@[t].high@
                    &&& tickers@[t].low@ == groups@[t].low@
                },
        decreases groups.len() - at,
    {
        let group = &groups[at];
        tickers.push(
            LabelColumns {
                dates: copy_all(&group.dates),
                high: copy_all(&group.high),
                low: copy_all(&group.low),
            },
        );
        at = at + 1;
    }
    tickers
}

/// The rows of `group` that `entry` lists, with their rank labels as rewards.
fn pick_rows<N: Copy>(group: &TickerGroup<N>, entry: &LabeledRows<N>) -> (labeled: LabeledGroup<N>)
    requires
        group.wf(),
        entry.labels@.len() == entry.rows@.len(),
        forall|i: int|
            0 <= i < entry.rows@.len() ==> (#[trigger] entry.rows@[i]) < group.dates@.len(),
        forall|i: int, j: int|
            #![trigger entry.rows@[i], entry.rows@[j]]
            0 <= i < j < entry.rows@.len() ==> entry.rows@[i] < entry.rows@[j],
    ensures
        picked_from(*group, *entry, labeled),
        labeled.wf(0),
{
    let mut labels: Vec<u8> = Vec::new();
    let mut at: usize = 0;
    while at < entry.rows.len()
        invariant
            at <= entry.rows.len(),
            labels@ =~= Seq::new(at as nat, |i: int| 0u8),
        decreases entry.rows.len() - at,
    {
        labels.push(0);
        at = at + 1;
    }
    let picked = TickerGroup {
        name: group.name.clone(),
        dates: pick_entries(&group.dates, &entry.rows),
        features: pick_features(&group.features, group.dates.len(), &entry.rows),
        open: pick_entries(&group.open, &entry.rows),
        high: pick_entries(&group.high, &entry.rows),
        low: pick_entries(&group.low, &entry.rows),
        close: pick_entries(&group.close, &entry.rows),
    };
    assert forall|i: int, j: int|
        #![trigger picked.dates@[i], picked.dates@[j]]
        0 <= i < j < picked.dates@.len() implies picked.dates@[i] <= picked.dates@[j] by {
        assert(entry.rows@[i] < entry.rows@[j]);
        assert(group.dates@[entry.rows@[i] as int] <= group.dates@[entry.rows@[j] as int]);
    }
    LabeledGroup { group: picked, labels, rewards: copy_all(&entry.labels) }
}

/// Label every row of the universe and keep the rows that have a label, with all their
/// columns. The rank label stands as the reward; there is no action class. A ticker without a
/// labeled row is left out.
pub fn label_groups<N: Narrow>(groups: &Vec<TickerGroup<N>>, horizon: usize) -> (labeled: Vec<
    LabeledGroup<N>,
>)
    requires
        horizon >= 1,
        forall|t: int| 0 <= t < groups@.len() ==> (#[trigger] groups@[t]).wf(),
    ensures
        exists|
            tickers: Seq<LabelColumns<N>>,
            labels: Seq<Option<N>>,
            kept: Seq<LabeledRows<N>>,
        |
            {
                &&& columns_are(groups@, tickers)
                &&& #[trigger] rank_labels_are(tickers, horizon as nat, labels)
                &&& #[trigger] kept_are(tickers, labels, tickers.len(), kept)
                &&& all_picked(groups@, kept, labeled@)
            },
        forall|k: int| 0 <= k < labeled@.len() ==> (#[trigger] labeled@[k]).wf(0),
{
    let tickers = label_columns(groups);
    assert forall|t: int| 0 <= t < tickers@.len() implies (#[trigger] tickers@[t]).wf() by {
        assert(groups@[t].wf());
    }
    let kept = load_labeled(&tickers, horizon);
    let ghost labels = choose|labels: Seq<Option<N>>| #[trigger]
        rank_labels_are(tickers@, horizon as nat, labels) && kept_are(
            tickers@,
            labels,
            tickers@.len(),
            kept@,
        );
    let mut labeled: Vec<LabeledGroup<N>> = Vec::new();
    let mut at: usize = 0;
    while at < kept.len()
        invariant
            at <= kept.len(),
            columns_are(groups@, tickers@),
            kept_are(tickers@, labels, tickers@.len(), kept@),
            forall|t: int| 0 <= t < groups@.len() ==> (#[trigger] groups@[t]).wf(),
            labeled@.len() == at,
            forall|k: int|
                0 <= k < at ==> picked_from(
                    groups@[kept@[k].ticker as int],
                    kept@[k],
                    #[trigger] labeled@[k],
                ) && labeled@[k].wf(0),
        decreases kept.len() - at,
    {
        let entry = &kept[at];
        let count = tickers.len();
        proof {
            lemma_labeled_tickers(tickers@, labels, count as nat);
            assert(kept@[at as int].ticker == labeled_tickers(tickers@, labels, count as nat)[
                at as int]);
            assert(rows_are(tickers@, labels, kept@[at as int]));
        }
        let rows = tickers[entry.ticker].dates.len();
        proof {
            lemma_labeled_ascend(
                labels,
                long_offset(tickers@, entry.ticker as int),
                rows as nat,
            );
            assert(groups@[entry.ticker as int].wf());
        }
        labeled.push(pick_rows(&groups[entry.ticker], entry));
        at = at + 1;
    }
    proof {
        assert(rank_labels_are(tickers@, horizon as nat, labels));
        assert(kept_are(tickers@, labels, tickers@.len(), kept@));
        assert(all_picked(groups@, kept@, labeled@));
    }
    labeled
}

proof fn lemma_labeled_tickers<N>(
    tickers: Seq<LabelColumns<N>>,
    labels: Seq<Option<N>>,
    count: nat,
)
    requires
        count <= usize::MAX,
    ensures
        forall|k: int|
            0 <= k < labeled_tickers(tickers, labels, count).len() ==> (#[trigger] labeled_tickers(
                tickers,
                labels,
                count,
            )[k]) < count,
    decreases count,
{
    if count > 0 {
        lemma_labeled_tickers(tickers, labels, (count - 1) as nat);
        let earlier = labeled_tickers(tickers, labels, (count - 1) as nat);
        let list = labeled_tickers(tickers, labels, count);
        assert forall|k: int| 0 <= k < list.len() implies (#[trigger] list[k]) < count by {
            if k < earlier.len() {
                assert(earlier[k] < count - 1);
            }
        }
    }
}

proof fn lemma_offset_within<N>(tickers: Seq<LabelColumns<N>>, t: int)
    requires
        0 <= t <= tickers.len(),
    ensures
        long_offset(tickers, t) <= long_dates(tickers).len(),
    decreases tickers.len(),
{
    if t < tickers.len() {
        assert(tickers.take(t) =~= tickers.drop_last().take(t));
        lemma_offset_within(tickers.drop_last(), t);
    } else {
        assert(tickers.take(t) =~= tickers);
    }
}

proof fn lemma_long_excursions<N: Number>(
    tickers: Seq<LabelColumns<N>>,
    horizon: nat,
    raw: Seq<Option<N>>,
)
    requires
        forall|t: int| 0 <= t < tickers.len() ==> (#[trigger] tickers[t]).wf(),
        long_excursions_are(tickers, horizon, raw),
    ensures
        raw.len() == long_dates(tickers).len(),
        forall|t: int, row: int|
            #![trigger raw[long_offset(tickers, t) + row]]
            0 <= t < tickers.len() && 0 <= row < tickers[t].dates@.len() ==> (raw[long_offset(
                tickers,
                t,
            ) + row] is Some <==> tickers[t].has_outcome(row, horizon)),
    decreases tickers.len(),
{
    if tickers.len() > 0 {
        let shorter = tickers.drop_last();
        let last = tickers.last();
        let (earlier, column) = choose|earlier: Seq<Option<N>>, column: Seq<Option<N>>|
            {
                &&& long_excursions_are(shorter, horizon, earlier)
                &&& #[trigger] excursions_are(last.high@, last.low@, horizon, column)
                &&& raw == #[trigger] (earlier + column)
            };
        assert(last.wf());
        assert forall|t: int| 0 <= t < shorter.len() implies (#[trigger] shorter[t]).wf() by {
            assert(tickers[t].wf());
        }
        lemma_long_excursions(shorter, horizon, earlier);
        assert forall|t: int, row: int|
            #![trigger raw[long_offset(tickers, t) + row]]
            0 <= t < tickers.len() && 0 <= row < tickers[t].dates@.len() implies (
        raw[long_offset(tickers, t) + row] is Some <==> tickers[t].has_outcome(row, horizon)) by {
            if t < shorter.len() {
                assert(tickers.take(t) =~= shorter.take(t));
                assert(tickers.take(t + 1) =~= shorter.take(t + 1));
                assert(tickers.take(t + 1).drop_last() =~= tickers.take(t));
                lemma_offset_within(shorter, t + 1);
                assert(raw[long_offset(tickers, t) + row] == earlier[long_offset(shorter, t)
                    + row]);
            } else {
                assert(tickers.take(t) =~= shorter);
                assert(raw[long_offset(tickers, t) + row] == column[row]);
            }
        }
    }
}

proof fn lemma_labeled_upto<N>(labels: Seq<Option<N>>, from: nat, count: nat, row: int)
    requires
        count <= usize::MAX,
        0 <= row < count,
    ensures
        labeled_upto(labels, from, count).contains(row as usize) <==> labels[from + row] is Some,
    decreases count,
{
    let earlier = labeled_upto(labels, from, (count - 1) as nat);
    let list = labeled_upto(labels, from, count);
    lemma_labeled_ascend(labels, from, (count - 1) as nat);
    if row == count - 1 {
        if labels[from + row] is Some {
            assert(list[list.len() - 1] == row as usize);
        }
    } else {
        lemma_labeled_upto(labels, from, (count - 1) as nat, row);
        if earlier.contains(row as usize) {
            let k = choose|k: int| 0 <= k < earlier.len() && earlier[k] == row as usize;
            assert(list[k] == row as usize);
        }
        if list.contains(row as usize) {
            let k = choose|k: int| 0 <= k < list.len() && list[k] == row as usize;
            assert(k < earlier.len());
            assert(earlier[k] == row as usize);
        }
    }
}

proof fn lemma_labeled_ascend<N>(labels: Seq<Option<N>>, from: nat, count: nat)
    requires
        count <= usize::MAX,
    ensures
        forall|i: int|
            0 <= i < labeled_upto(labels, from, count).len() ==> (#[trigger] labeled_upto(
                labels,
                from,
                count,
            )[i]) < count,
        forall|i: int, j: int|
            #![trigger labeled_upto(labels, from, count)[i], labeled_upto(labels, from, count)[j]]
            0 <= i < j < labeled_upto(labels, from, count).len() ==> labeled_upto(
                labels,
                from,
                count,
            )[i] < labeled_upto(labels, from, count)[j],
    decreases count,
{
    if count > 0 {
        lemma_labeled_ascend(labels, from, (count - 1) as nat);
        let earlier = labeled_upto(labels, from, (count - 1) as nat);
        let list = labeled_upto(labels, from, count);
        assert forall|i: int| 0 <= i < list.len() implies (#[trigger] list[i]) < count by {
            if i < earlier.len() {
                assert(earlier[i] < count - 1);
            }
        }
        assert forall|i: int, j: int|
            #![trigger list[i], list[j]]
            0 <= i < j < list.len() implies list[i] < list[j] by {
            assert(earlier[i] < count - 1);
            if j < earlier.len() {
                assert(earlier[i] < earlier[j]);
            }
        }
    }
}

proof fn lemma_labeled_head<N>(labels: Seq<Option<N>>, from: nat, count: nat, head: nat)
    requires
        count <= usize::MAX,
        forall|row: int|
            0 <= row < count ==> (#[trigger] labels[from + row] is Some <==> row < head),
    ensures
        labeled_upto(labels, from, count) == Seq::new(
            if head <= count {
                head
            } else {
                count
            },
            |row: int| row as usize,
        ),
    decreases count,
{
    if count > 0 {
        lemma_labeled_head(labels, from, (count - 1) as nat, head);
        assert(labels[from + (count - 1)] is Some <==> count - 1 < head);
    }
    assert(labeled_upto(labels, from, count) =~= Seq::new(
        if head <= count {
            head
        } else {
            count
        },
        |row: int| row as usize,
    ));
}

/// A row is kept if and only if it has a full forward window.
pub proof fn rows_with_an_outcome_are_kept<N: Narrow>(
    tickers: Seq<LabelColumns<N>>,
    horizon: nat,
    labels: Seq<Option<N>>,
    t: int,
    row: int,
)
    requires
        forall|t: int| 0 <= t < tickers.len() ==> (#[trigger] tickers[t]).wf(),
        rank_labels_are(tickers, horizon, labels),
        0 <= t < tickers.len(),
        0 <= row < tickers[t].dates@.len() <= usize::MAX,
    ensures
        labels[long_offset(tickers, t) + row] is Some <==> tickers[t].has_outcome(row, horizon),
        labeled_rows(tickers, labels, t).contains(row as usize) <==> tickers[t].has_outcome(
            row,
            horizon,
        ),
{
    let raw = choose|raw: Seq<Option<N>>|
        {
            &&& #[trigger] long_excursions_are(tickers, horizon, raw)
            &&& raw.len() == labels.len()
            &&& forall|at: int|
                0 <= at < labels.len() ==> label_is(
                    long_dates(tickers),
                    raw,
                    at,
                    #[trigger] labels[at],
                )
        };
    let from = long_offset(tickers, t);
    lemma_long_excursions(tickers, horizon, raw);
    lemma_offset_within(tickers, t + 1);
    assert(tickers.take(t + 1).drop_last() =~= tickers.take(t));
    assert(label_is(long_dates(tickers), raw, from + row, labels[from + row]));
    assert(raw[from + row] is Some <==> tickers[t].has_outcome(row, horizon));
    lemma_labeled_upto(labels, from, tickers[t].dates@.len(), row);
}

/// The trailing `horizon` rows of a ticker have no forward outcome and are dropped; with no
/// price missing every row before them is kept, so exactly `horizon` rows are missing.
pub proof fn only_rows_without_an_outcome_are_dropped<N: Narrow>(
    tickers: Seq<LabelColumns<N>>,
    horizon: nat,
    labels: Seq<Option<N>>,
    t: int,
)
    requires
        forall|t: int| 0 <= t < tickers.len() ==> (#[trigger] tickers[t]).wf(),
        rank_labels_are(tickers, horizon, labels),
        0 <= t < tickers.len(),
        tickers[t].dates@.len() <= usize::MAX,
        all_present(tickers[t].high@, 0, tickers[t].high@.len() as int),
        all_present(tickers[t].low@, 0, tickers[t].low@.len() as int),
        horizon >= 1,
    ensures
        ({
            let rows = tickers[t].dates@.len();
            labeled_rows(tickers, labels, t) == Seq::new(
                if horizon <= rows {
                    (rows - horizon) as nat
                } else {
                    0
                },
                |row: int| row as usize,
            )
        }),
{
    let from = long_offset(tickers, t);
    let rows = tickers[t].dates@.len();
    let head = if horizon <= rows {
        (rows - horizon) as nat
    } else {
        0
    };
    assert forall|row: int| 0 <= row < rows implies (#[trigger] labels[from + row] is Some <==> row
        < head) by {
        rows_with_an_outcome_are_kept(tickers, horizon, labels, t, row);
        assert(tickers[t].wf());
        if row + horizon < rows {
            assert(tickers[t].low@[row + 1] is Some);
            assert(all_present(tickers[t].high@, row + 1, horizon as int));
        }
    }
    lemma_labeled_head(labels, from, rows, head);
}

} // verus!
