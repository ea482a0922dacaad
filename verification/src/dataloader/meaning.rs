//! What a normalized window and an industry code say of the data.
use vstd::prelude::*;

#[allow(unused_imports)]
use crate::batcher::one_hot_rows_have_one_mark;
#[allow(unused_imports)]
use crate::dataloader::{
    advanced, identity, loaded_histories, normalized_windows, window_buckets, window_labels,
    window_within, windows_within, OhlcvGroup, Sampling, StockBatch, StockDataLoader,
};
#[allow(unused_imports)]
use crate::dataloader::industries::{
    code_in, code_of, codes_are, codes_at, distinct_industries, occurs, IndustryCode,
};
#[allow(unused_imports)]
use crate::dataloader::normalize::{
    compressed_is, entry_scaled, last_close, normalized_is, scaled_is, score_is, spread_is,
    standardized_is, volumes, zero_is, FLATNESS,
};
#[allow(unused_imports)]
use crate::history::{
    rows_before, rows_before_is_the_cut, train_heads, valid_tails, HistoryView, FEATURES,
};
use crate::number::Number;
#[allow(unused_imports)]
use crate::number::{
    average_is, difference_is, empty_sum_is, exact, exceeds_is, larger_is, log_one_plus_is,
    quotient_is, ratio_is, reaches_is, sqrt_is, total_is,
};
#[allow(unused_imports)]
use crate::portfolio::metrics::squared_distance_is;
#[allow(unused_imports)]
use crate::random::{
    chosen_indices, is_draw, mix_is_one_to_one_in_the_epoch, mixed_seed, shuffle_order, shuffled_by,
};
#[allow(unused_imports)]
use crate::reals::{
    has_roots, lemma_quotient, lemma_ratio, lemma_whole, real_sum, reals, square_sum,
    totals_are_sums,
};
#[allow(unused_imports)]
use crate::text::{name_order_is_antisymmetric, names_ordered};

verus! {

/// The logarithm grows with its argument.
pub open spec fn log_grows<N: Number>(value: spec_fn(N) -> real) -> bool {
    forall|a: N, b: N, r: N, s: N| #[trigger]
        log_one_plus_is(a, r) && #[trigger] log_one_plus_is(b, s) ==> (value(a) < value(b) <==> value(
            r,
        ) < value(s))
}

/// In an exact format every price of a normalized window is its ratio to the close of the last
/// row, so that this close itself becomes one. With a close of zero the prices stand.
pub proof fn prices_become_ratios_to_the_last_close<N: Number>(
    value: spec_fn(N) -> real,
    window: Seq<N>,
    steps: nat,
    result: Seq<N>,
    row: int,
    feature: int,
)
    requires
        exact(value),
        steps > 0,
        window.len() == steps * 5,
        normalized_is(window, steps, result),
        0 <= row < steps,
        0 <= feature < 4,
    ensures
        ({
            let close = value(window[(steps - 1) * 5 + 3]);
            let (before, after) = (
                value(window[row * 5 + feature]),
                value(result[row * 5 + feature]),
            );
            &&& result.len() == window.len()
            &&& close != 0 as real ==> after * close == before
            &&& close == 0 as real ==> after == before
            &&& close != 0 as real && row == steps - 1 && feature == 3 ==> after == 1 as real
        }),
{
    let (flat, scaled, mean, spread) = choose|flat: bool, scaled: Seq<N>, mean: N, spread: N|
        {
            &&& zero_is(last_close(window, steps as int), flat)
            &&& #[trigger] scaled_is(window, last_close(window, steps as int), flat, scaled)
            &&& average_is(volumes(scaled, steps), mean)
            &&& #[trigger] spread_is(volumes(scaled, steps), mean, spread)
            &&& standardized_is(scaled, mean, spread, result)
        };
    lemma_zero(value, last_close(window, steps as int), flat);
    let i = row * 5 + feature;
    assert(0 <= i < window.len() && i % 5 == feature) by (nonlinear_arith)
        requires
            i == row * 5 + feature,
            0 <= row < steps,
            0 <= feature < 4,
            window.len() == steps * 5,
    ;
    let close = last_close(window, steps as int);
    assert(entry_scaled(i, window[i], close, flat, scaled[i]));
    assert(result[i] == scaled[i]);
    if !flat {
        lemma_quotient(value, window[i], close, scaled[i]);
        let (a, c) = (value(scaled[i]), value(close));
        if row == steps - 1 && feature == 3 {
            assert(a == 1 as real) by (nonlinear_arith)
                requires
                    a * c == c,
                    c != 0 as real,
            ;
        }
    }
}

proof fn lemma_zero<N: Number>(value: spec_fn(N) -> real, number: N, is_zero: bool)
    requires
        exact(value),
        zero_is(number, is_zero),
    ensures
        is_zero <==> value(number) == 0 as real,
{
    let (zero, above, below) = choose|zero: N, above: bool, below: bool|
        {
            &&& ratio_is(0, 1, zero)
            &&& reaches_is(number, zero, above)
            &&& reaches_is(zero, number, below)
            &&& is_zero == (above && below)
        };
    lemma_whole(value, 0, zero);
}

/// The volumes of a window as reals.
pub open spec fn volume_column<N>(
    value: spec_fn(N) -> real,
    window: Seq<N>,
    steps: nat,
) -> Seq<real> {
    Seq::new(steps, |row: int| value(window[row * 5 + 4]))
}

proof fn lemma_volume_place(row: int, steps: nat, length: nat)
    requires
        0 <= row < steps,
        length == steps * 5,
    ensures
        0 <= row * 5 + 4 < length,
        (row * 5 + 4) % 5 == 4,
{
}

proof fn lemma_squares<N: Number>(
    value: spec_fn(N) -> real,
    values: Seq<N>,
    mean: N,
    squares: Seq<N>,
)
    requires
        exact(value),
        squares.len() == values.len(),
        forall|i: int|
            0 <= i < values.len() ==> squared_distance_is(values[i], mean, #[trigger] squares[i]),
    ensures
        real_sum(reals(value, squares)) == square_sum(reals(value, values), value(mean))
            >= 0 as real,
    decreases values.len(),
{
    if values.len() > 0 {
        let last = values.len() - 1;
        let (shorter, fewer) = (values.drop_last(), squares.drop_last());
        assert forall|i: int| 0 <= i < shorter.len() implies squared_distance_is(
            shorter[i],
            mean,
            #[trigger] fewer[i],
        ) by {
            assert(squared_distance_is(values[i], mean, squares[i]));
        }
        lemma_squares(value, shorter, mean, fewer);
        assert(squared_distance_is(values[last], mean, squares[last]));
        assert(reals(value, squares).drop_last() =~= reals(value, fewer));
        assert(reals(value, values).drop_last() =~= reals(value, shorter));
        let d = value(values[last]) - value(mean);
        assert(d * d >= 0 as real) by (nonlinear_arith);
    }
}

proof fn lemma_average<N: Number>(value: spec_fn(N) -> real, values: Seq<N>, mean: N)
    requires
        exact(value),
        average_is(values, mean),
        0 < values.len() <= u64::MAX,
    ensures
        value(mean) * (values.len() as int as real) == real_sum(reals(value, values)),
{
    let (start, total, count) = choose|start: N, total: N, count: N|
        {
            &&& empty_sum_is(start)
            &&& #[trigger] total_is(start, values, total)
            &&& ratio_is(values.len() as u64, 1, count)
            &&& #[trigger] quotient_is(total, count, mean)
        };
    lemma_whole(value, values.len() as u64, count);
    totals_are_sums(value, start, values, total);
    lemma_quotient(value, total, count, mean);
}

proof fn lemma_scores(
    given: Seq<real>,
    mean: real,
    spread: real,
    scores: Seq<real>,
)
    requires
        scores.len() == given.len(),
        forall|i: int| 0 <= i < given.len() ==> #[trigger] scores[i] * spread == given[i] - mean,
    ensures
        real_sum(scores) * spread == real_sum(given) - mean * (given.len() as int as real),
        square_sum(scores, 0 as real) * (spread * spread) == square_sum(given, mean),
    decreases given.len(),
{
    if given.len() == 0 {
        assert(0 as real * spread == 0 as real - mean * (0 as real)) by (nonlinear_arith);
        assert(0 as real * (spread * spread) == 0 as real) by (nonlinear_arith);
    } else {
        let last = given.len() - 1;
        let (g, s) = (given.drop_last(), scores.drop_last());
        assert forall|i: int| 0 <= i < g.len() implies #[trigger] s[i] * spread == g[i] - mean by {
            assert(scores[i] * spread == given[i] - mean);
        }
        lemma_scores(g, mean, spread, s);
        let (a, b, x, y, n) = (
            real_sum(s),
            real_sum(g),
            scores[last],
            given[last],
            g.len() as int as real,
        );
        assert(x * spread == y - mean);
        assert((a + x) * spread == b + y - mean * (n + 1 as real)) by (nonlinear_arith)
            requires
                a * spread == b - mean * n,
                x * spread == y - mean,
        ;
        let (p, q) = (square_sum(s, 0 as real), square_sum(g, mean));
        assert((p + (x - 0 as real) * (x - 0 as real)) * (spread * spread) == q + (y - mean) * (y
            - mean)) by (nonlinear_arith)
            requires
                p * (spread * spread) == q,
                x * spread == y - mean,
        {
            assert((x * spread) * (x * spread) == (y - mean) * (y - mean));
            assert((x * x) * (spread * spread) == (x * spread) * (x * spread));
            assert((p + x * x) * (spread * spread) == p * (spread * spread) + (x * x) * (spread
                * spread));
        }
    }
}

/// In an exact format with square roots the volumes of a normalized window are standard
/// scores: they have the mean zero and the variance one; or they are all zero, where they
/// hardly vary.
pub proof fn volumes_become_standard_scores<N: Number>(
    value: spec_fn(N) -> real,
    window: Seq<N>,
    steps: nat,
    result: Seq<N>,
)
    requires
        exact(value),
        has_roots(value),
        0 < steps <= u64::MAX,
        window.len() == steps * 5,
        normalized_is(window, steps, result),
    ensures
        ({
            let scores = volume_column(value, result, steps);
            ||| real_sum(scores) == 0 as real && square_sum(scores, 0 as real)
                == steps as int as real
            ||| forall|row: int| 0 <= row < steps ==> #[trigger] scores[row] == 0 as real
        }),
{
    let (flat, scaled, mean, spread) = choose|flat: bool, scaled: Seq<N>, mean: N, spread: N|
        {
            &&& zero_is(last_close(window, steps as int), flat)
            &&& #[trigger] scaled_is(window, last_close(window, steps as int), flat, scaled)
            &&& average_is(volumes(scaled, steps), mean)
            &&& #[trigger] spread_is(volumes(scaled, steps), mean, spread)
            &&& standardized_is(scaled, mean, spread, result)
        };
    let column = volumes(scaled, steps);
    let (given, scores) = (reals(value, column), volume_column(value, result, steps));
    let n = steps as int as real;
    lemma_average(value, column, mean);
    let (squares, variance) = choose|squares: Seq<N>, variance: N|
        {
            &&& squares.len() == column.len()
            &&& forall|i: int|
                0 <= i < column.len() ==> squared_distance_is(
                    column[i],
                    mean,
                    #[trigger] squares[i],
                )
            &&& #[trigger] average_is(squares, variance)
            &&& sqrt_is(variance, spread)
        };
    lemma_squares(value, column, mean, squares);
    lemma_average(value, squares, variance);
    let (m, v, d) = (value(mean), value(variance), value(spread));
    assert(v >= 0 as real) by (nonlinear_arith)
        requires
            v * n >= 0 as real,
            n > 0 as real,
    ;
    let floor = 1 as real / 8_388_608 as real;
    assert forall|row: int| 0 <= row < steps implies if d > floor {
        #[trigger] scores[row] * d == given[row] - m
    } else {
        scores[row] == 0 as real
    } by {
        lemma_volume_place(row, steps, window.len());
        let i = row * 5 + 4;
        assert(score_is(scaled[i], mean, spread, result[i]));
        let (bound, varied) = choose|bound: N, varied: bool|
            {
                &&& ratio_is(1, FLATNESS, bound)
                &&& exceeds_is(spread, bound, varied)
                &&& if varied {
                    exists|distance: N|
                        difference_is(scaled[i], mean, distance) && quotient_is(
                            distance,
                            spread,
                            result[i],
                        )
                } else {
                    ratio_is(0, 1, result[i])
                }
            };
        lemma_ratio(value, 1, FLATNESS, bound);
        if varied {
            let distance = choose|distance: N|
                difference_is(scaled[i], mean, distance) && quotient_is(
                    distance,
                    spread,
                    result[i],
                );
            lemma_quotient(value, distance, spread, result[i]);
        } else {
            lemma_whole(value, 0, result[i]);
        }
    }
    if d > floor {
        assert forall|row: int| 0 <= row < given.len() implies #[trigger] scores[row] * d
            == given[row] - m by {
        }
        lemma_scores(given, m, d, scores);
        let (s, q) = (real_sum(scores), square_sum(scores, 0 as real));
        assert(s == 0 as real) by (nonlinear_arith)
            requires
                s * d == 0 as real,
                d > 0 as real,
        ;
        assert(v > 0 as real) by (nonlinear_arith)
            requires
                d * d == v,
                d > 0 as real,
        ;
        assert(q == n) by (nonlinear_arith)
            requires
                q * v == v * n,
                v > 0 as real,
        ;
    }
}

/// In an exact format whose logarithm grows, a larger volume never gets a smaller score, and
/// volumes below zero count as zero.
pub proof fn larger_volumes_score_no_lower<N: Number>(
    value: spec_fn(N) -> real,
    window: Seq<N>,
    steps: nat,
    result: Seq<N>,
    a: int,
    b: int,
)
    requires
        exact(value),
        has_roots(value),
        log_grows(value),
        0 < steps <= u64::MAX,
        window.len() == steps * 5,
        normalized_is(window, steps, result),
        0 <= a < steps,
        0 <= b < steps,
        value(window[a * 5 + 4]) <= value(window[b * 5 + 4]) || value(window[a * 5 + 4])
            <= 0 as real,
    ensures
        value(result[a * 5 + 4]) <= value(result[b * 5 + 4]),
{
    let (flat, scaled, mean, spread) = choose|flat: bool, scaled: Seq<N>, mean: N, spread: N|
        {
            &&& zero_is(last_close(window, steps as int), flat)
            &&& #[trigger] scaled_is(window, last_close(window, steps as int), flat, scaled)
            &&& average_is(volumes(scaled, steps), mean)
            &&& #[trigger] spread_is(volumes(scaled, steps), mean, spread)
            &&& standardized_is(scaled, mean, spread, result)
        };
    let (i, j) = (a * 5 + 4, b * 5 + 4);
    lemma_volume_place(a, steps, window.len());
    lemma_volume_place(b, steps, window.len());
    let close = last_close(window, steps as int);
    assert(entry_scaled(i, window[i], close, flat, scaled[i]));
    assert(entry_scaled(j, window[j], close, flat, scaled[j]));
    let (zero, p) = choose|zero: N, positive: N|
        {
            &&& ratio_is(0, 1, zero)
            &&& larger_is(window[i], zero, positive)
            &&& log_one_plus_is(positive, scaled[i])
        };
    lemma_whole(value, 0, zero);
    let (nil, q) = choose|zero: N, positive: N|
        {
            &&& ratio_is(0, 1, zero)
            &&& larger_is(window[j], zero, positive)
            &&& log_one_plus_is(positive, scaled[j])
        };
    lemma_whole(value, 0, nil);
    assert(value(p) <= value(q));
    assert(log_one_plus_is(q, scaled[j]) && log_one_plus_is(p, scaled[i]));
    assert(value(scaled[i]) <= value(scaled[j]));
    assert(score_is(scaled[i], mean, spread, result[i]));
    assert(score_is(scaled[j], mean, spread, result[j]));
    lemma_score(value, scaled[i], mean, spread, result[i]);
    lemma_score(value, scaled[j], mean, spread, result[j]);
    let (x, y, u, w, d, m) = (
        value(result[i]),
        value(result[j]),
        value(scaled[i]),
        value(scaled[j]),
        value(spread),
        value(mean),
    );
    if d > 1 as real / 8_388_608 as real {
        assert(x <= y) by (nonlinear_arith)
            requires
                x * d == u - m,
                y * d == w - m,
                u <= w,
                d > 0 as real,
        ;
    }
}

proof fn lemma_score<N: Number>(
    value: spec_fn(N) -> real,
    volume: N,
    mean: N,
    spread: N,
    score: N,
)
    requires
        exact(value),
        score_is(volume, mean, spread, score),
    ensures
        value(spread) > 1 as real / 8_388_608 as real ==> value(score) * value(spread) == value(
            volume,
        ) - value(mean),
        value(spread) <= 1 as real / 8_388_608 as real ==> value(score) == 0 as real,
{
    let (bound, varied) = choose|bound: N, varied: bool|
        {
            &&& ratio_is(1, FLATNESS, bound)
            &&& exceeds_is(spread, bound, varied)
            &&& if varied {
                exists|distance: N|
                    difference_is(volume, mean, distance) && quotient_is(distance, spread, score)
            } else {
                ratio_is(0, 1, score)
            }
        };
    lemma_ratio(value, 1, FLATNESS, bound);
    if varied {
        let distance = choose|distance: N|
            difference_is(volume, mean, distance) && quotient_is(distance, spread, score);
        lemma_quotient(value, distance, spread, score);
    } else {
        lemma_whole(value, 0, score);
    }
}

/// The row is the last that gives `name` an industry.
pub open spec fn last_word(
    names: Seq<Option<String>>,
    industries: Seq<Option<String>>,
    name: Seq<char>,
    row: int,
) -> bool {
    &&& 0 <= row < names.len()
    &&& names[row] matches Some(given) && given@ == name
    &&& industries[row] is Some
    &&& forall|later: int|
        row < later < names.len() ==> !((#[trigger] names[later]) matches Some(given) && given@
            == name && industries[later] is Some)
}

proof fn lemma_last_word(
    names: Seq<Option<String>>,
    industries: Seq<Option<String>>,
    distinct: Seq<Seq<char>>,
    count: nat,
    name: Seq<char>,
    row: int,
)
    requires
        last_word(names, industries, name, row),
        row < count <= names.len(),
    ensures
        code_in(names, industries, distinct, count, name) == Some(
            distinct.index_of(industries[row]->0@),
        ),
    decreases count,
{
    if row < count - 1 {
        lemma_last_word(names, industries, distinct, (count - 1) as nat, name, row);
    }
}

/// Two names share a code if and only if the last rows that give them an industry give them
/// the same one, and otherwise the codes follow the order of the industries' names. Every code
/// lies below the number of industries.
pub proof fn codes_follow_the_industries(
    names: Seq<Option<String>>,
    industries: Seq<Option<String>>,
    distinct: Seq<Seq<char>>,
    codes: Seq<IndustryCode>,
    a: Seq<char>,
    first: int,
    b: Seq<char>,
    second: int,
)
    requires
        names.len() == industries.len(),
        distinct_industries(industries, distinct),
        codes_are(names, industries, distinct, codes),
        last_word(names, industries, a, first),
        last_word(names, industries, b, second),
    ensures
        code_of(codes, a) matches Some(x) && code_of(codes, b) matches Some(y) && {
            &&& 0 <= x < distinct.len()
            &&& x == y <==> industries[first]->0@ == industries[second]->0@
            &&& x <= y <==> names_ordered(industries[first]->0@, industries[second]->0@)
        },
{
    let (p, q) = (industries[first]->0@, industries[second]->0@);
    lemma_last_word(names, industries, distinct, names.len(), a, first);
    lemma_last_word(names, industries, distinct, names.len(), b, second);
    assert(code_of(codes, a) == code_in(names, industries, distinct, names.len(), a));
    assert(code_of(codes, b) == code_in(names, industries, distinct, names.len(), b));
    assert(distinct.contains(p) && distinct.contains(q));
    let (x, y) = (distinct.index_of(p), distinct.index_of(q));
    assert(distinct[x] == p && distinct[y] == q);
    if x < y {
        assert(names_ordered(distinct[x], distinct[y]));
    } else if y < x {
        assert(names_ordered(distinct[y], distinct[x]));
        if names_ordered(p, q) {
            name_order_is_antisymmetric(p, q);
        }
    } else {
        crate::text::name_order_is_total(p, q);
    }
}

proof fn lemma_no_word(
    names: Seq<Option<String>>,
    industries: Seq<Option<String>>,
    distinct: Seq<Seq<char>>,
    count: nat,
    name: Seq<char>,
)
    requires
        count <= names.len(),
        forall|row: int|
            0 <= row < names.len() ==> !((#[trigger] names[row]) matches Some(given) && given@
                == name && industries[row] is Some),
    ensures
        code_in(names, industries, distinct, count, name) is None,
    decreases count,
{
    if count > 0 {
        lemma_no_word(names, industries, distinct, (count - 1) as nat, name);
        assert(!(names[count - 1] matches Some(given) && given@ == name && industries[count
            - 1] is Some));
    }
}

/// A name that no row gives an industry has no code.
pub proof fn names_without_an_industry_have_no_code(
    names: Seq<Option<String>>,
    industries: Seq<Option<String>>,
    distinct: Seq<Seq<char>>,
    codes: Seq<IndustryCode>,
    name: Seq<char>,
)
    requires
        codes_are(names, industries, distinct, codes),
        forall|row: int|
            0 <= row < names.len() ==> !((#[trigger] names[row]) matches Some(given) && given@
                == name && industries[row] is Some),
    ensures
        code_of(codes, name) is None,
{
    lemma_no_word(names, industries, distinct, names.len(), name);
    assert(code_of(codes, name) == code_in(names, industries, distinct, names.len(), name));
}

proof fn lemma_normalized_windows<N: Number>(
    histories: Seq<HistoryView<N>>,
    selection: Seq<(u32, u32)>,
    steps: nat,
    technical: Seq<N>,
    b: int,
)
    requires
        steps > 0,
        forall|b: int|
            0 <= b < selection.len() ==> {
                &&& (#[trigger] selection[b]).0 < histories.len()
                &&& selection[b].1 + steps <= histories[selection[b].0 as int].rows()
                &&& histories[selection[b].0 as int].wf()
            },
        normalized_windows(histories, selection, steps, technical),
    ensures
        technical.len() == selection.len() * (steps * 5),
        0 <= b < selection.len() ==> ({
            let (ticker, start) = selection[b];
            let history = histories[ticker as int];
            &&& 0 <= b * (steps * 5) <= (b + 1) * (steps * 5) <= technical.len()
            &&& normalized_is(
                history.features.subrange(start * 5, (start + steps) * 5),
                steps,
                technical.subrange(b * (steps * 5), (b + 1) * (steps * 5)),
            )
        }),
    decreases selection.len(),
{
    let width = (steps * 5) as int;
    if selection.len() == 0 {
        assert(0 * width == 0);
    } else {
        let shorter = selection.drop_last();
        let at = selection.len() - 1;
        let (ticker, start) = selection[at];
        let history = histories[ticker as int];
        let window = history.window(start as int, steps as int);
        let (earlier, last) = choose|earlier: Seq<N>, last: Seq<N>|
            {
                &&& normalized_windows(histories, shorter, steps, earlier)
                &&& #[trigger] normalized_is(window, steps, last)
                &&& technical == #[trigger] (earlier + last)
            };
        assert forall|b: int| 0 <= b < shorter.len() implies {
            &&& (#[trigger] shorter[b]).0 < histories.len()
            &&& shorter[b].1 + steps <= histories[shorter[b].0 as int].rows()
            &&& histories[shorter[b].0 as int].wf()
        } by {
            assert(selection[b].0 < histories.len());
        }
        lemma_normalized_windows(histories, shorter, steps, earlier, b);
        assert(selection[at].0 < histories.len());
        assert(window.len() == width) by {
            assert((start + steps) * 5 - start * 5 == width && (start + steps) * 5
                <= history.features.len()) by (nonlinear_arith)
                requires
                    width == steps * 5,
                    start + steps <= history.dates.len(),
                    history.features.len() == history.dates.len() * 5,
            ;
        }
        lemma_normalized_length(window, steps, last);
        let n = shorter.len() as int;
        assert((n + 1) * width == n * width + width) by (nonlinear_arith);
        if 0 <= b < n {
            assert(0 <= b * width && (b + 1) * width <= n * width && b * width <= (b + 1) * width)
                by (nonlinear_arith)
                requires
                    0 <= b < n,
                    width > 0,
            ;
            assert(technical.subrange(b * width, (b + 1) * width) =~= earlier.subrange(
                b * width,
                (b + 1) * width,
            ));
            assert(shorter[b] == selection[b]);
        } else if b == n {
            assert(0 <= n * width) by (nonlinear_arith)
                requires
                    0 <= n,
                    width > 0,
            ;
            assert(technical.subrange(b * width, (b + 1) * width) =~= last);
        }
    }
}

proof fn lemma_normalized_length<N: Number>(window: Seq<N>, steps: nat, result: Seq<N>)
    requires
        normalized_is(window, steps, result),
    ensures
        result.len() == window.len(),
{
}

/// Each sample of a batch is the normalization of its window's rows, beside the label of the
/// window's last row; and with industries attached its mark stands in the bucket of its
/// ticker's industry, the last one for a ticker without.
pub proof fn batches_pair_windows_with_their_last_label<N: Number>(
    loader: StockDataLoader<N>,
    selection: Seq<(u32, u32)>,
    batch: StockBatch<N>,
    b: int,
    column: int,
)
    requires
        loader.wf(),
        windows_within(loader.histories(), selection, loader.steps as nat),
        loader.assembled(selection, batch),
        0 <= b < selection.len(),
    ensures
        ({
            let (ticker, start) = selection[b];
            let history = loader.histories()[ticker as int];
            let steps = loader.steps as int;
            let bucket = match code_of(loader.industry_codes@, history.name) {
                Some(code) => code,
                None => loader.n_industries - 1,
            };
            &&& batch.label@.len() == selection.len()
            &&& batch.label@[b] == history.labels[start + steps - 1]
            &&& batch.technical@.len() == selection.len() * (steps * 5)
            &&& normalized_is(
                history.features.subrange(start * 5, (start + steps) * 5),
                steps as nat,
                batch.technical@.subrange(b * (steps * 5), (b + 1) * (steps * 5)),
            )
            &&& 0 <= column < loader.n_industries ==> {
                &&& batch.ticker@.len() == selection.len() * loader.n_industries
                &&& batch.ticker@[b * loader.n_industries + column] == if column == bucket {
                    1u8
                } else {
                    0u8
                }
            }
        }),
{
    let histories = loader.histories();
    let steps = loader.steps as nat;
    assert forall|b: int| 0 <= b < selection.len() implies {
        &&& (#[trigger] selection[b]).0 < histories.len()
        &&& selection[b].1 + steps <= histories[selection[b].0 as int].rows()
        &&& histories[selection[b].0 as int].wf()
    } by {
        assert(window_within(histories, selection[b], steps));
        assert(histories[selection[b].0 as int].wf());
    }
    lemma_normalized_windows(histories, selection, steps, batch.technical@, b);
    if 0 <= column < loader.n_industries {
        one_hot_rows_have_one_mark(
            window_buckets(
                histories,
                selection,
                loader.industry_codes@,
                loader.n_industries as nat,
            ),
            loader.n_industries as nat,
            b,
            column,
        );
    }
    let name = histories[selection[b].0 as int].name;
    if let Some(code) = code_of(loader.industry_codes@, name) {
        assert(0 <= code <= usize::MAX);
    }
}

/// `kept` is what a split keeps of `history` on its side of `cutoff`: every row dated before it
/// if `train`, every other row if not, at least `steps` of them.
pub open spec fn side_of<T>(
    history: HistoryView<T>,
    cutoff: i32,
    steps: nat,
    train: bool,
    kept: HistoryView<T>,
) -> bool {
    &&& kept.name == history.name
    &&& kept.dates.len() >= steps
    &&& exists|from: int, to: int|
        {
            &&& 0 <= from <= to <= history.dates.len()
            &&& kept.dates == #[trigger] history.dates.subrange(from, to)
            &&& kept.features == history.features.subrange(from * 5, to * 5)
            &&& kept.labels == history.labels.subrange(from, to)
            &&& forall|r: int|
                0 <= r < history.dates.len() ==> ((#[trigger] history.dates[r] < cutoff) == train
                    <==> from <= r < to)
        }
}

proof fn lemma_head<T>(history: HistoryView<T>, cutoff: i32, steps: nat)
    requires
        history.wf(),
    ensures
        rows_before(history.dates, cutoff) >= steps ==> side_of(
            history,
            cutoff,
            steps,
            true,
            history.head(rows_before(history.dates, cutoff) as int),
        ),
        history.rows() - rows_before(history.dates, cutoff) >= steps ==> side_of(
            history,
            cutoff,
            steps,
            false,
            history.tail(rows_before(history.dates, cutoff) as int),
        ),
{
    rows_before_is_the_cut(history.dates, cutoff);
    let cut = rows_before(history.dates, cutoff) as int;
    let rows = history.dates.len() as int;
    assert(0 <= cut * 5 <= rows * 5) by (nonlinear_arith)
        requires
            0 <= cut <= rows,
    ;
    assert(history.dates.take(cut) =~= history.dates.subrange(0, cut));
    assert(history.features.take(cut * 5) =~= history.features.subrange(0, cut * 5));
    assert(history.labels.take(cut) =~= history.labels.subrange(0, cut));
    assert(history.dates.skip(cut) =~= history.dates.subrange(cut, rows));
    assert(history.features.skip(cut * 5) =~= history.features.subrange(cut * 5, rows * 5));
    assert(history.labels.skip(cut) =~= history.labels.subrange(cut, rows));
}

/// A loader's split parts every history at the cutoff: the train side holds, of every history
/// that has enough of them, exactly the rows dated before it, and the valid side exactly the
/// others; and neither holds anything else.
pub proof fn splits_part_every_history_at_the_cutoff<T>(
    histories: Seq<HistoryView<T>>,
    cutoff: i32,
    steps: nat,
)
    requires
        forall|t: int| 0 <= t < histories.len() ==> (#[trigger] histories[t]).wf(),
    ensures
        forall|k: int|
            0 <= k < train_heads(histories, cutoff, steps).len() ==> comes_from_side(
                histories,
                cutoff,
                steps,
                true,
                #[trigger] train_heads(histories, cutoff, steps)[k],
            ),
        forall|k: int|
            0 <= k < valid_tails(histories, cutoff, steps).len() ==> comes_from_side(
                histories,
                cutoff,
                steps,
                false,
                #[trigger] valid_tails(histories, cutoff, steps)[k],
            ),
        forall|t: int|
            0 <= t < histories.len() && rows_before((#[trigger] histories[t]).dates, cutoff)
                >= steps ==> train_heads(histories, cutoff, steps).contains(
                histories[t].head(rows_before(histories[t].dates, cutoff) as int),
            ),
        forall|t: int|
            0 <= t < histories.len() && (#[trigger] histories[t]).rows() - rows_before(
                histories[t].dates,
                cutoff,
            ) >= steps ==> valid_tails(histories, cutoff, steps).contains(
                histories[t].tail(rows_before(histories[t].dates, cutoff) as int),
            ),
    decreases histories.len(),
{
    if histories.len() > 0 {
        let shorter = histories.drop_last();
        let last = histories.len() - 1;
        assert forall|t: int| 0 <= t < shorter.len() implies (#[trigger] shorter[t]).wf() by {
            assert(histories[t].wf());
        }
        splits_part_every_history_at_the_cutoff(shorter, cutoff, steps);
        assert(histories[last].wf());
        lemma_head(histories[last], cutoff, steps);
        let (a, b) = (train_heads(shorter, cutoff, steps), valid_tails(shorter, cutoff, steps));
        let (train, valid) = (
            train_heads(histories, cutoff, steps),
            valid_tails(histories, cutoff, steps),
        );
        assert forall|k: int| 0 <= k < train.len() implies comes_from_side(
            histories,
            cutoff,
            steps,
            true,
            #[trigger] train[k],
        ) by {
            if k < a.len() {
                assert(train[k] == a[k]);
                lemma_still_comes(histories, cutoff, steps, true, a[k]);
            } else {
                assert(side_of(histories[last], cutoff, steps, true, train[k]));
            }
        }
        assert forall|k: int| 0 <= k < valid.len() implies comes_from_side(
            histories,
            cutoff,
            steps,
            false,
            #[trigger] valid[k],
        ) by {
            if k < b.len() {
                assert(valid[k] == b[k]);
                lemma_still_comes(histories, cutoff, steps, false, b[k]);
            } else {
                assert(side_of(histories[last], cutoff, steps, false, valid[k]));
            }
        }
        assert forall|t: int|
            0 <= t < histories.len() && rows_before((#[trigger] histories[t]).dates, cutoff)
                >= steps implies train.contains(
            histories[t].head(rows_before(histories[t].dates, cutoff) as int),
        ) by {
            let head = histories[t].head(rows_before(histories[t].dates, cutoff) as int);
            if t < last {
                assert(shorter[t] == histories[t]);
                let k = choose|k: int| 0 <= k < a.len() && a[k] == head;
                assert(train[k] == head);
            } else {
                assert(train[train.len() - 1] == head);
            }
        }
        assert forall|t: int|
            0 <= t < histories.len() && (#[trigger] histories[t]).rows() - rows_before(
                histories[t].dates,
                cutoff,
            ) >= steps implies valid.contains(
            histories[t].tail(rows_before(histories[t].dates, cutoff) as int),
        ) by {
            let tail = histories[t].tail(rows_before(histories[t].dates, cutoff) as int);
            if t < last {
                assert(shorter[t] == histories[t]);
                let k = choose|k: int| 0 <= k < b.len() && b[k] == tail;
                assert(valid[k] == tail);
            } else {
                assert(valid[valid.len() - 1] == tail);
            }
        }
    }
}

/// `kept` is the side of one of the histories.
pub open spec fn comes_from_side<T>(
    histories: Seq<HistoryView<T>>,
    cutoff: i32,
    steps: nat,
    train: bool,
    kept: HistoryView<T>,
) -> bool {
    exists|t: int|
        0 <= t < histories.len() && side_of(#[trigger] histories[t], cutoff, steps, train, kept)
}

proof fn lemma_still_comes<T>(
    histories: Seq<HistoryView<T>>,
    cutoff: i32,
    steps: nat,
    train: bool,
    kept: HistoryView<T>,
)
    requires
        histories.len() > 0,
        comes_from_side(histories.drop_last(), cutoff, steps, train, kept),
    ensures
        comes_from_side(histories, cutoff, steps, train, kept),
{
    let shorter = histories.drop_last();
    let t = choose|t: int|
        0 <= t < shorter.len() && side_of(#[trigger] shorter[t], cutoff, steps, train, kept);
    assert(side_of(histories[t], cutoff, steps, train, kept));
}

/// A group becomes a history if and only if it has more rows than a window: of all its rows but
/// the last, which has no label.
pub proof fn loaded_groups_lose_their_last_row<N>(
    groups: Seq<OhlcvGroup<N>>,
    steps: nat,
    g: int,
)
    requires
        0 <= g < groups.len(),
    ensures
        loaded_histories(groups, steps).len() <= groups.len(),
        groups[g].dates@.len() > steps ==> exists|k: int|
            0 <= k < loaded_histories(groups, steps).len() && ({
                let history = #[trigger] loaded_histories(groups, steps)[k];
                &&& history.name == groups[g].name@
                &&& history.dates == groups[g].dates@.subrange(0, groups[g].dates@.len() - 1)
                &&& history.features == groups[g].features@.take(
                    (groups[g].dates@.len() - 1) * 5,
                )
                &&& history.labels == groups[g].labels@
            }),
    decreases groups.len(),
{
    let shorter = groups.drop_last();
    let (fewer, all) = (loaded_histories(shorter, steps), loaded_histories(groups, steps));
    if shorter.len() > 0 {
        loaded_groups_lose_their_last_row(
            shorter,
            steps,
            if g < shorter.len() {
                g
            } else {
                0
            },
        );
    }
    if groups[g].dates@.len() > steps {
        if g < shorter.len() {
            let k = choose|k: int|
                0 <= k < fewer.len() && ({
                    let history = #[trigger] fewer[k];
                    &&& history.name == groups[g].name@
                    &&& history.dates == groups[g].dates@.subrange(0, groups[g].dates@.len() - 1)
                    &&& history.features == groups[g].features@.take(
                        (groups[g].dates@.len() - 1) * 5,
                    )
                    &&& history.labels == groups[g].labels@
                });
            assert(all[k] == fewer[k]);
        } else {
            let history = all[all.len() - 1];
            assert(history.dates =~= groups[g].dates@.subrange(0, groups[g].dates@.len() - 1));
        }
    }
}

/// A shuffled pass counts as an epoch and a fixed sweep does not.
pub proof fn only_shuffled_passes_count(sampling: Sampling, epoch: u64)
    ensures
        sampling == Sampling::Fixed ==> advanced(sampling, epoch) == epoch,
        sampling == Sampling::Shuffle && epoch < u64::MAX ==> advanced(sampling, epoch) == epoch
            + 1,
{
}

/// A fixed sweep walks the windows as they stand. With a seed, the shuffles of two epochs come
/// from generators that start from different seeds.
pub proof fn seeded_epochs_shuffle_apart<N: Number>(
    loader: StockDataLoader<N>,
    first: u64,
    second: u64,
    order: Seq<u32>,
    other: Seq<u32>,
    i: int,
)
    requires
        loader.epoch_order_is(first, order),
        loader.epoch_order_is(second, other),
        first != second,
        0 <= i < loader.windows@.len() <= u32::MAX,
    ensures
        order.len() == loader.windows@.len(),
        loader.sampling == Sampling::Fixed ==> order[i] == i,
        loader.sampling == Sampling::Shuffle && loader.seed is Some ==> exists|a: u64, b: u64|
            {
                &&& a != b
                &&& order[i] == #[trigger] shuffle_order(usize::BITS, a, order.len())[i]
                &&& other[i] == #[trigger] shuffle_order(usize::BITS, b, other.len())[i]
            },
{
    if loader.sampling == Sampling::Shuffle && loader.seed is Some {
        let seed = loader.seed->0;
        mix_is_one_to_one_in_the_epoch(seed, first, second);
        let (a, b) = (mixed_seed(seed, first), mixed_seed(seed, second));
        let len = loader.windows@.len();
        assert(shuffled_by(identity(len), shuffle_order(usize::BITS, a, len), order));
        assert(shuffled_by(identity(len), shuffle_order(usize::BITS, b, len), other));
        assert(order[i] == shuffle_order(usize::BITS, a, order.len())[i]);
        assert(other[i] == shuffle_order(usize::BITS, b, other.len())[i]);
    }
}

/// A sample keeps as many tickers as asked for, or all if there are no more: each is one of the
/// loader's, and no one comes twice.
pub proof fn samples_keep_so_many_tickers<N: Number>(
    loader: StockDataLoader<N>,
    count: usize,
    seed: u64,
    sample: StockDataLoader<N>,
)
    requires
        loader.fits(),
        call_ensures(StockDataLoader::<N>::sample_tickers, (loader, count, seed), sample),
    ensures
        count >= loader.histories().len() ==> sample.histories() == loader.histories(),
        count < loader.histories().len() ==> sample.histories().len() == count && exists|
            places: Seq<int>,
        | #[trigger]
            places.no_duplicates() && places.len() == count && forall|i: int|
                0 <= i < count ==> 0 <= #[trigger] places[i] < loader.histories().len()
                    && sample.histories()[i] == loader.histories()[places[i]],
{
    if count < loader.histories().len() {
        let drawn = chosen_indices(usize::BITS, seed, loader.histories().len(), count as nat);
        assert(is_draw(drawn, loader.histories().len(), count as nat));
        let places = Seq::new(count as nat, |i: int| drawn[i] as int);
        assert(places.no_duplicates());
        assert forall|i: int| 0 <= i < count implies 0 <= #[trigger] places[i]
            < loader.histories().len() && sample.histories()[i]
            == loader.histories()[places[i]] by {
            assert(drawn[i] < loader.histories().len());
        }
    }
}

} // verus!
