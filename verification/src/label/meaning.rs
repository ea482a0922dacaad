//! What the labels say of the prices: the best move ahead, and where it ranks on its day.
use vstd::prelude::*;

#[allow(unused_imports)]
use crate::history::picked_features_are_those_of_the_rows;
#[allow(unused_imports)]
use crate::label::{
    all_present, excursion_is, excursions_are, has_outcome, label_is, outcome_is, peak_is, peers,
    picked_from, ranked_in, sample_deviation_is, spread_is, z_score_is, LabeledRows,
};
use crate::number::{Narrow, Number};
#[allow(unused_imports)]
use crate::number::{
    average_is, difference_is, empty_sum_is, exact, higher_is, narrowed_is, quotient_is, ratio_is,
    sqrt_is, sum_is, total_is, widened_all, widened_is,
};
#[allow(unused_imports)]
use crate::portfolio::metrics::squared_distance_is;
#[allow(unused_imports)]
use crate::reals::{
    has_roots, keeps_value, lemma_quotient, lemma_ratio, lemma_whole, real_sum, reals, square_sum,
    totals_are_sums,
};
#[allow(unused_imports)]
use crate::store::{LabeledGroup, TickerGroup};

verus! {

proof fn lemma_peak<N: Number>(
    value: spec_fn(N) -> real,
    values: Seq<Option<N>>,
    from: int,
    count: nat,
    peak: N,
)
    requires
        exact(value),
        count >= 1,
        peak_is(values, from, count, peak),
    ensures
        forall|i: int|
            from <= i < from + count ==> (#[trigger] values[i] matches Some(high) && value(high)
                <= value(peak)),
        exists|i: int|
            from <= i < from + count && (#[trigger] values[i] matches Some(high) && value(high)
                == value(peak)),
    decreases count,
{
    if count > 1 {
        let before = (count - 1) as nat;
        let (earlier, high) = choose|earlier: N, high: N|
            {
                &&& peak_is(values, from, before, earlier)
                &&& values[from + count - 1] == Some(high)
                &&& #[trigger] higher_is(earlier, high, peak)
            };
        lemma_peak(value, values, from, before, earlier);
        assert forall|i: int| from <= i < from + count implies (
        #[trigger] values[i] matches Some(high) && value(high) <= value(peak)) by {
            if i < from + before {
                assert(values[i] is Some);
            }
        }
        if value(earlier) >= value(high) {
            let i = choose|i: int|
                from <= i < from + before && (#[trigger] values[i] matches Some(high) && value(high)
                    == value(earlier));
            assert(values[i] matches Some(high) && value(high) == value(peak));
        } else {
            assert(values[from + count - 1] matches Some(high) && value(high) == value(peak));
        }
    } else {
        assert(values[from] matches Some(high) && value(high) == value(peak));
    }
}

/// In an exact format the excursion of a row is the best move ahead: the next low grown by it
/// is at least every high of the window, and equals one of them.
pub proof fn excursion_reaches_the_highest_high<N: Number>(
    value: spec_fn(N) -> real,
    high: Seq<Option<N>>,
    low: Seq<Option<N>>,
    horizon: nat,
    column: Seq<Option<N>>,
    at: int,
    entry: N,
    excursion: N,
)
    requires
        exact(value),
        horizon >= 1,
        excursions_are(high, low, horizon, column),
        0 <= at < column.len(),
        column[at] == Some(excursion),
        low[at + 1] == Some(entry),
        value(entry) != 0 as real,
    ensures
        forall|i: int|
            at < i <= at + horizon ==> (#[trigger] high[i] matches Some(price) && value(price)
                <= value(entry) * (1 as real + value(excursion))),
        exists|i: int|
            at < i <= at + horizon && (#[trigger] high[i] matches Some(price) && value(price)
                == value(entry) * (1 as real + value(excursion))),
{
    assert(outcome_is(high, low, at, horizon, column[at]));
    let (peak, found, growth, one) = choose|peak: N, found: N, growth: N, one: N|
        {
            &&& #[trigger] peak_is(high, at + 1, horizon, peak)
            &&& low[at + 1] == Some(found)
            &&& #[trigger] quotient_is(peak, found, growth)
            &&& ratio_is(1, 1, one)
            &&& #[trigger] difference_is(growth, one, excursion)
        };
    lemma_whole(value, 1, one);
    lemma_quotient(value, peak, entry, growth);
    lemma_peak(value, high, at + 1, horizon, peak);
    let (e, x, p, g) = (value(entry), value(excursion), value(peak), value(growth));
    assert(e * (1 as real + x) == p) by (nonlinear_arith)
        requires
            g * e == p,
            x == g - 1 as real,
    ;
    let i = choose|i: int|
        at + 1 <= i < at + 1 + horizon && (#[trigger] high[i] matches Some(price) && value(price)
            == value(peak));
    assert(high[i] matches Some(price) && value(price) == e * (1 as real + x));
}

/// A row has an excursion if and only if a full window of bars follows it, with no high
/// missing and the next low present.
pub proof fn excursion_needs_a_full_window<N: Number>(
    high: Seq<Option<N>>,
    low: Seq<Option<N>>,
    horizon: nat,
    column: Seq<Option<N>>,
    at: int,
)
    requires
        excursions_are(high, low, horizon, column),
        0 <= at < column.len(),
    ensures
        column.len() == high.len(),
        column[at] is Some <==> {
            &&& at + horizon < high.len()
            &&& low[at + 1] is Some
            &&& forall|i: int| at < i <= at + horizon ==> (#[trigger] high[i]) is Some
        },
{
    assert(outcome_is(high, low, at, horizon, column[at]));
    if forall|i: int| at < i <= at + horizon ==> (#[trigger] high[i]) is Some {
        assert(all_present(high, at + 1, horizon as int));
    }
}

/// The format hands the undefined on: `undefined` says which of its numbers are, and a
/// maximum, a quotient, or a difference that takes one is undefined as well.
pub open spec fn hands_on<N: Number>(undefined: spec_fn(N) -> bool) -> bool {
    &&& forall|a: N, b: N, r: N| #[trigger]
        higher_is(a, b, r) && (undefined(a) || undefined(b)) ==> undefined(r)
    &&& forall|a: N, b: N, r: N| #[trigger] quotient_is(a, b, r) && undefined(a) ==> undefined(r)
    &&& forall|a: N, b: N, r: N| #[trigger] difference_is(a, b, r) && undefined(a) ==> undefined(r)
}

proof fn lemma_undefined_peak<N: Number>(
    undefined: spec_fn(N) -> bool,
    values: Seq<Option<N>>,
    from: int,
    count: nat,
    peak: N,
    i: int,
)
    requires
        hands_on(undefined),
        count >= 1,
        peak_is(values, from, count, peak),
        from <= i < from + count,
        values[i] matches Some(price) && undefined(price),
    ensures
        undefined(peak),
    decreases count,
{
    if count > 1 {
        let before = (count - 1) as nat;
        let (earlier, high) = choose|earlier: N, high: N|
            {
                &&& peak_is(values, from, before, earlier)
                &&& values[from + count - 1] == Some(high)
                &&& #[trigger] higher_is(earlier, high, peak)
            };
        if i < from + before {
            lemma_undefined_peak(undefined, values, from, before, earlier, i);
        }
    }
}

/// An undefined high leaves every excursion undefined whose window it lies in.
pub proof fn undefined_high_leaves_the_excursion_undefined<N: Number>(
    undefined: spec_fn(N) -> bool,
    high: Seq<Option<N>>,
    low: Seq<Option<N>>,
    horizon: nat,
    column: Seq<Option<N>>,
    at: int,
    excursion: N,
    i: int,
)
    requires
        hands_on(undefined),
        horizon >= 1,
        excursions_are(high, low, horizon, column),
        0 <= at < column.len(),
        column[at] == Some(excursion),
        at < i <= at + horizon,
        high[i] matches Some(price) && undefined(price),
    ensures
        undefined(excursion),
{
    assert(outcome_is(high, low, at, horizon, column[at]));
    let (peak, found, growth, one) = choose|peak: N, found: N, growth: N, one: N|
        {
            &&& #[trigger] peak_is(high, at + 1, horizon, peak)
            &&& low[at + 1] == Some(found)
            &&& #[trigger] quotient_is(peak, found, growth)
            &&& ratio_is(1, 1, one)
            &&& #[trigger] difference_is(growth, one, excursion)
        };
    lemma_undefined_peak(undefined, high, at + 1, horizon, peak, i);
}

/// How many of the first `count` rows have a value on `day`.
pub open spec fn day_count<N>(dates: Seq<i32>, raw: Seq<Option<N>>, day: i32, count: nat) -> nat
    decreases count,
{
    if count == 0 {
        0
    } else {
        day_count(dates, raw, day, (count - 1) as nat) + if dates[count - 1] == day
            && raw[count - 1] is Some {
            1nat
        } else {
            0nat
        }
    }
}

/// The values of the first `count` rows on `day`, added up.
pub open spec fn day_sum<N>(
    value: spec_fn(N) -> real,
    dates: Seq<i32>,
    raw: Seq<Option<N>>,
    day: i32,
    count: nat,
) -> real
    decreases count,
{
    if count == 0 {
        0 as real
    } else {
        day_sum(value, dates, raw, day, (count - 1) as nat) + match raw[count - 1] {
            Some(x) if dates[count - 1] == day => value(x),
            _ => 0 as real,
        }
    }
}

/// The squared distances from `center` of the values of the first `count` rows on `day`, added
/// up.
pub open spec fn day_squares<N>(
    value: spec_fn(N) -> real,
    dates: Seq<i32>,
    raw: Seq<Option<N>>,
    day: i32,
    center: real,
    count: nat,
) -> real
    decreases count,
{
    if count == 0 {
        0 as real
    } else {
        day_squares(value, dates, raw, day, center, (count - 1) as nat) + match raw[count - 1] {
            Some(x) if dates[count - 1] == day => (value(x) - center) * (value(x) - center),
            _ => 0 as real,
        }
    }
}

proof fn lemma_peers<N: Number>(
    value: spec_fn(N) -> real,
    dates: Seq<i32>,
    raw: Seq<Option<N>>,
    day: i32,
    center: real,
    count: nat,
)
    ensures
        peers(dates, raw, day, count).len() == day_count(dates, raw, day, count) <= count,
        real_sum(reals(value, peers(dates, raw, day, count))) == day_sum(
            value,
            dates,
            raw,
            day,
            count,
        ),
        square_sum(reals(value, peers(dates, raw, day, count)), center) == day_squares(
            value,
            dates,
            raw,
            day,
            center,
            count,
        ) >= 0 as real,
    decreases count,
{
    if count > 0 {
        let before = (count - 1) as nat;
        lemma_peers(value, dates, raw, day, center, before);
        if raw[count - 1] is Some && dates[count - 1] == day {
            let (fewer, all) = (peers(dates, raw, day, before), peers(dates, raw, day, count));
            assert(reals(value, all).drop_last() =~= reals(value, fewer));
            let d = value(raw[count - 1]->0) - center;
            assert(d * d >= 0 as real) by (nonlinear_arith);
        }
    }
}

/// `mean` and `deviation` are those of the values of `day`: the mean times their number is
/// their sum, and the squared deviation times one less than their number is the sum of their
/// squared distances from the mean; a single value has no deviation.
pub open spec fn spread_on<N>(
    value: spec_fn(N) -> real,
    dates: Seq<i32>,
    raw: Seq<Option<N>>,
    day: i32,
    mean: real,
    deviation: real,
) -> bool {
    let count = day_count(dates, raw, day, dates.len());
    &&& mean * (count as int as real) == day_sum(value, dates, raw, day, dates.len())
    &&& deviation >= 0 as real
    &&& deviation * deviation * (count as int as real - 1 as real) == day_squares(
        value,
        dates,
        raw,
        day,
        mean,
        dates.len(),
    )
    &&& count <= 1 ==> deviation == 0 as real
}

proof fn lemma_squares<N: Number>(
    value: spec_fn(N) -> real,
    values: Seq<N>,
    mean: N,
    squares: Seq<N>,
)
    requires
        exact(value),
        squares.len() == values.len(),
        forall|i: int|
            0 <= i < values.len() ==> squared_distance_is(values[i], mean, #[trigger] squares[i]),
    ensures
        real_sum(reals(value, squares)) == square_sum(reals(value, values), value(mean)),
    decreases values.len(),
{
    if values.len() > 0 {
        let last = values.len() - 1;
        let (shorter, fewer) = (values.drop_last(), squares.drop_last());
        assert forall|i: int| 0 <= i < shorter.len() implies squared_distance_is(
            shorter[i],
            mean,
            #[trigger] fewer[i],
        ) by {
            assert(squared_distance_is(values[i], mean, squares[i]));
        }
        lemma_squares(value, shorter, mean, fewer);
        assert(squared_distance_is(values[last], mean, squares[last]));
        assert(reals(value, squares).drop_last() =~= reals(value, fewer));
        assert(reals(value, values).drop_last() =~= reals(value, shorter));
    }
}

proof fn lemma_spread<N: Narrow>(
    value: spec_fn(N) -> real,
    wide: spec_fn(N::Wide) -> real,
    dates: Seq<i32>,
    raw: Seq<Option<N>>,
    day: i32,
    mean: N,
    deviation: N,
)
    requires
        exact(value),
        exact(wide),
        has_roots(wide),
        keeps_value(value, wide),
        spread_is(peers(dates, raw, day, dates.len()), mean, deviation),
        day_count(dates, raw, day, dates.len()) > 0,
        dates.len() <= u64::MAX,
    ensures
        spread_on(value, dates, raw, day, value(mean), value(deviation)),
{
    let group = peers(dates, raw, day, dates.len());
    let (all, center, width) = choose|all: Seq<N::Wide>, center: N::Wide, width: N::Wide|
        {
            &&& widened_all(group, all)
            &&& #[trigger] average_is(all, center)
            &&& #[trigger] sample_deviation_is(all, center, width)
            &&& narrowed_is(center, mean)
            &&& narrowed_is(width, deviation)
        };
    assert forall|i: int| 0 <= i < group.len() implies #[trigger] reals(wide, all)[i] == reals(
        value,
        group,
    )[i] by {
        assert(widened_is(group[i], all[i]));
    }
    assert(reals(wide, all) =~= reals(value, group));
    let (start, total, count) = choose|start: N::Wide, total: N::Wide, count: N::Wide|
        {
            &&& empty_sum_is(start)
            &&& #[trigger] total_is(start, all, total)
            &&& ratio_is(all.len() as u64, 1, count)
            &&& #[trigger] quotient_is(total, count, center)
        };
    lemma_peers(value, dates, raw, day, wide(center), dates.len());
    lemma_whole(wide, all.len() as u64, count);
    totals_are_sums(wide, start, all, total);
    lemma_quotient(wide, total, count, center);
    if all.len() < 2 {
        lemma_whole(wide, 0, width);
        let (m, d, x) = (value(mean), value(deviation), group.len() as int as real);
        reveal_with_fuel(real_sum, 2);
        reveal_with_fuel(square_sum, 2);
        assert(group.len() == 1);
        assert(square_sum(reals(value, group), m) == (reals(value, group).last() - m) * (reals(
            value,
            group,
        ).last() - m));
        assert(real_sum(reals(value, group)) == reals(value, group).last());
        let l = reals(value, group).last();
        assert(m == l) by (nonlinear_arith)
            requires
                m * x == l,
                x == 1 as real,
        ;
        assert((l - m) * (l - m) == 0 as real) by (nonlinear_arith)
            requires
                l == m,
        ;
        assert(d * d * (x - 1 as real) == 0 as real) by (nonlinear_arith)
            requires
                d == 0 as real,
        ;
    } else {
        let (squares, begin, sum, degrees, variance) = choose|
            squares: Seq<N::Wide>,
            begin: N::Wide,
            sum: N::Wide,
            degrees: N::Wide,
            variance: N::Wide,
        |
            {
                &&& squares.len() == all.len()
                &&& forall|i: int|
                    0 <= i < all.len() ==> squared_distance_is(
                        all[i],
                        center,
                        #[trigger] squares[i],
                    )
                &&& empty_sum_is(begin)
                &&& #[trigger] total_is(begin, squares, sum)
                &&& ratio_is((all.len() - 1) as u64, 1, degrees)
                &&& #[trigger] quotient_is(sum, degrees, variance)
                &&& sqrt_is(variance, width)
            };
        lemma_squares(wide, all, center, squares);
        totals_are_sums(wide, begin, squares, sum);
        lemma_whole(wide, (all.len() - 1) as u64, degrees);
        lemma_quotient(wide, sum, degrees, variance);
        let (v, n, q) = (wide(variance), wide(degrees), wide(sum));
        assert(v >= 0 as real) by (nonlinear_arith)
            requires
                v * n == q,
                q >= 0 as real,
                n > 0 as real,
        ;
    }
}

/// In exact formats a label is the distance of the row's value from the mean of its date, in
/// deviations of that date, a hundred-millionth being added to the deviation. A row without a
/// value has no label.
pub proof fn label_is_the_distance_from_the_mean_of_its_date<N: Narrow>(
    value: spec_fn(N) -> real,
    wide: spec_fn(N::Wide) -> real,
    dates: Seq<i32>,
    raw: Seq<Option<N>>,
    at: int,
    label: Option<N>,
)
    requires
        exact(value),
        exact(wide),
        has_roots(wide),
        keeps_value(value, wide),
        label_is(dates, raw, at, label),
        raw.len() == dates.len() <= u64::MAX,
        0 <= at < dates.len(),
    ensures
        label is Some <==> raw[at] is Some,
        raw[at] matches Some(x) ==> exists|mean: real, deviation: real|
            {
                &&& #[trigger] spread_on(value, dates, raw, dates[at], mean, deviation)
                &&& value(label->0) * (deviation + 1 as real / 100_000_000 as real) == value(x)
                    - mean
            },
{
    if let Some(x) = raw[at] {
        let day = dates[at];
        let score = label->0;
        let group = peers(dates, raw, day, dates.len());
        let (mean, deviation) = choose|mean: N, deviation: N|
            {
                &&& #[trigger] spread_is(group, mean, deviation)
                &&& z_score_is(x, mean, deviation, score)
            };
        lemma_counted(dates, raw, at, dates.len());
        lemma_spread(value, wide, dates, raw, day, mean, deviation);
        let (distance, slack, width) = choose|distance: N, slack: N, width: N|
            {
                &&& difference_is(x, mean, distance)
                &&& ratio_is(1, 100_000_000, slack)
                &&& sum_is(deviation, slack, width)
                &&& quotient_is(distance, width, score)
            };
        lemma_ratio(value, 1, 100_000_000, slack);
        lemma_quotient(value, distance, width, score);
        assert(spread_on(value, dates, raw, day, value(mean), value(deviation)));
    }
}

proof fn lemma_counted<N>(dates: Seq<i32>, raw: Seq<Option<N>>, at: int, count: nat)
    requires
        0 <= at < count,
        raw[at] is Some,
    ensures
        day_count(dates, raw, dates[at], count) > 0,
    decreases count,
{
    if at < count - 1 {
        lemma_counted(dates, raw, at, (count - 1) as nat);
    }
}

proof fn lemma_one_spread<N>(
    value: spec_fn(N) -> real,
    dates: Seq<i32>,
    raw: Seq<Option<N>>,
    day: i32,
    mean: real,
    deviation: real,
    center: real,
    width: real,
)
    requires
        spread_on(value, dates, raw, day, mean, deviation),
        spread_on(value, dates, raw, day, center, width),
        day_count(dates, raw, day, dates.len()) > 0,
    ensures
        mean == center && deviation == width,
{
    let n = day_count(dates, raw, day, dates.len()) as int as real;
    assert(mean == center) by (nonlinear_arith)
        requires
            mean * n == center * n,
            n > 0 as real,
    ;
    if n > 1 as real {
        assert(deviation == width) by (nonlinear_arith)
            requires
                deviation * deviation * (n - 1 as real) == width * width * (n - 1 as real),
                n > 1 as real,
                deviation >= 0 as real,
                width >= 0 as real,
        {
            assert(deviation * deviation == width * width);
        }
    }
}

/// In exact formats the labels of a date rank its rows as their values do.
pub proof fn labels_rank_a_date_by_its_values<N: Narrow>(
    value: spec_fn(N) -> real,
    wide: spec_fn(N::Wide) -> real,
    dates: Seq<i32>,
    raw: Seq<Option<N>>,
    labels: Seq<Option<N>>,
    a: int,
    b: int,
)
    requires
        exact(value),
        exact(wide),
        has_roots(wide),
        keeps_value(value, wide),
        raw.len() == dates.len() <= u64::MAX,
        0 <= a < dates.len(),
        0 <= b < dates.len(),
        label_is(dates, raw, a, labels[a]),
        label_is(dates, raw, b, labels[b]),
        dates[a] == dates[b],
        raw[a] is Some,
        raw[b] is Some,
    ensures
        value(labels[a]->0) < value(labels[b]->0) <==> value(raw[a]->0) < value(raw[b]->0),
{
    let day = dates[a];
    label_is_the_distance_from_the_mean_of_its_date(value, wide, dates, raw, a, labels[a]);
    label_is_the_distance_from_the_mean_of_its_date(value, wide, dates, raw, b, labels[b]);
    let slack = 1 as real / 100_000_000 as real;
    let (mean, deviation) = choose|mean: real, deviation: real|
        {
            &&& #[trigger] spread_on(value, dates, raw, day, mean, deviation)
            &&& value(labels[a]->0) * (deviation + slack) == value(raw[a]->0) - mean
        };
    let (center, width) = choose|mean: real, deviation: real|
        {
            &&& #[trigger] spread_on(value, dates, raw, day, mean, deviation)
            &&& value(labels[b]->0) * (deviation + slack) == value(raw[b]->0) - mean
        };
    lemma_counted(dates, raw, a, dates.len());
    lemma_one_spread(value, dates, raw, day, mean, deviation, center, width);
    let (x, y, p, q, d) = (
        value(labels[a]->0),
        value(labels[b]->0),
        value(raw[a]->0),
        value(raw[b]->0),
        deviation + slack,
    );
    assert(x < y <==> p < q) by (nonlinear_arith)
        requires
            x * d == p - mean,
            y * d == q - mean,
            d > 0 as real,
    ;
}

proof fn lemma_label_sum<N: Narrow>(
    value: spec_fn(N) -> real,
    wide: spec_fn(N::Wide) -> real,
    dates: Seq<i32>,
    raw: Seq<Option<N>>,
    labels: Seq<Option<N>>,
    day: i32,
    mean: real,
    deviation: real,
    count: nat,
)
    requires
        exact(value),
        exact(wide),
        has_roots(wide),
        keeps_value(value, wide),
        raw.len() == dates.len() <= u64::MAX,
        labels.len() == dates.len(),
        forall|at: int| 0 <= at < dates.len() ==> label_is(dates, raw, at, #[trigger] labels[at]),
        spread_on(value, dates, raw, day, mean, deviation),
        day_count(dates, raw, day, dates.len()) > 0,
        count <= dates.len(),
    ensures
        day_sum(value, dates, labels, day, count) * (deviation + 1 as real / 100_000_000 as real)
            == day_sum(value, dates, raw, day, count) - mean * (day_count(
            dates,
            raw,
            day,
            count,
        ) as int as real),
    decreases count,
{
    let slack = 1 as real / 100_000_000 as real;
    let d = deviation + slack;
    if count == 0 {
        assert(0 as real * d == 0 as real - mean * (0 as real)) by (nonlinear_arith);
    } else {
        let before = (count - 1) as nat;
        let at = count - 1;
        lemma_label_sum(value, wide, dates, raw, labels, day, mean, deviation, before);
        assert(label_is(dates, raw, at, labels[at]));
        label_is_the_distance_from_the_mean_of_its_date(value, wide, dates, raw, at, labels[at]);
        if dates[at] == day && raw[at] is Some {
            let (center, width) = choose|mean: real, deviation: real|
                {
                    &&& #[trigger] spread_on(value, dates, raw, day, mean, deviation)
                    &&& value(labels[at]->0) * (deviation + slack) == value(raw[at]->0) - mean
                };
            lemma_one_spread(value, dates, raw, day, mean, deviation, center, width);
            let (s, l, t, x, n) = (
                day_sum(value, dates, labels, day, before),
                value(labels[at]->0),
                day_sum(value, dates, raw, day, before),
                value(raw[at]->0),
                day_count(dates, raw, day, before) as int as real,
            );
            assert((s + l) * d == t + x - mean * (n + 1 as real)) by (nonlinear_arith)
                requires
                    s * d == t - mean * n,
                    l * d == x - mean,
            ;
        }
    }
}

/// In exact formats the labels of a date add up to zero, so that only the rank within the date
/// remains.
pub proof fn labels_of_a_date_cancel_out<N: Narrow>(
    value: spec_fn(N) -> real,
    wide: spec_fn(N::Wide) -> real,
    dates: Seq<i32>,
    raw: Seq<Option<N>>,
    labels: Seq<Option<N>>,
    at: int,
)
    requires
        exact(value),
        exact(wide),
        has_roots(wide),
        keeps_value(value, wide),
        raw.len() == dates.len() <= u64::MAX,
        labels.len() == dates.len(),
        forall|at: int| 0 <= at < dates.len() ==> label_is(dates, raw, at, #[trigger] labels[at]),
        0 <= at < dates.len(),
        raw[at] is Some,
    ensures
        day_sum(value, dates, labels, dates[at], dates.len()) == 0 as real,
{
    let day = dates[at];
    label_is_the_distance_from_the_mean_of_its_date(value, wide, dates, raw, at, labels[at]);
    let (mean, deviation) = choose|mean: real, deviation: real| #[trigger]
        spread_on(value, dates, raw, day, mean, deviation);
    lemma_counted(dates, raw, at, dates.len());
    lemma_label_sum(value, wide, dates, raw, labels, day, mean, deviation, dates.len());
    let (s, d) = (
        day_sum(value, dates, labels, day, dates.len()),
        deviation + 1 as real / 100_000_000 as real,
    );
    assert(s == 0 as real) by (nonlinear_arith)
        requires
            s * d == 0 as real,
            d > 0 as real,
    ;
}

/// A labeled group shows the rows that were kept as they stood, column by column, each with its
/// own rank label.
pub proof fn labeled_rows_are_rows_of_the_group<N>(
    group: TickerGroup<N>,
    entry: LabeledRows<N>,
    labeled: LabeledGroup<N>,
    i: int,
    f: int,
)
    requires
        group.wf(),
        picked_from(group, entry, labeled),
        forall|k: int| 0 <= k < entry.rows@.len() ==> (#[trigger] entry.rows@[k]) < group.dates@.len(),
        entry.labels@.len() == entry.rows@.len(),
        0 <= i < entry.rows@.len(),
        0 <= f < 5,
    ensures
        ({
            let row = entry.rows@[i] as int;
            &&& labeled.group.name@ == group.name@
            &&& labeled.group.dates@.len() == entry.rows@.len()
            &&& labeled.group.dates@[i] == group.dates@[row]
            &&& labeled.group.features@[i * 5 + f] == group.features@[row * 5 + f]
            &&& labeled.group.open@[i] == group.open@[row]
            &&& labeled.group.high@[i] == group.high@[row]
            &&& labeled.group.low@[i] == group.low@[row]
            &&& labeled.group.close@[i] == group.close@[row]
            &&& labeled.rewards@[i] == entry.labels@[i]
        }),
{
    assert forall|k: int| 0 <= k < entry.rows@.len() implies (#[trigger] entry.rows@[k] + 1) * 5
        <= group.features@.len() by {
        assert(entry.rows@[k] < group.dates@.len());
    }
    picked_features_are_those_of_the_rows(group.features@, entry.rows@, i, f);
}

} // verus!
