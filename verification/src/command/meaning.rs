//! What the day stream of a backtest shows of the quotes and the signals.
use vstd::prelude::*;

#[allow(unused_imports)]
use crate::command::backtest::{
    action_is, bar_is, bar_matches, bar_on, bars_follow, dated, day_stream, days_are, lagged_score,
    rows_kept, source_row, tradable_is, window_score, Signals,
};
use crate::number::Number;
#[allow(unused_imports)]
use crate::number::{exact, exceeds_is, finite_is, one_result, ratio_is};
#[allow(unused_imports)]
use crate::portfolio::eviction::lemma_bar_of;
#[allow(unused_imports)]
use crate::portfolio::types::{bar_of, bar_stands, Action, DayBar, TradingDay};
#[allow(unused_imports)]
use crate::reals::lemma_whole;
#[allow(unused_imports)]
use crate::store::{InferenceWindow, TickerQuotes};

verus! {

/// The bar of `ticker` on day `d` is made of row `row` of the quotes at `q`, and of the signal
/// of the row before.
pub open spec fn made_of<N>(
    quotes: Seq<TickerQuotes<N>>,
    signals: Signals<N>,
    q: int,
    row: int,
    ticker: Seq<char>,
    date: i32,
    bar: DayBar<N>,
) -> bool {
    &&& 0 <= q < quotes.len()
    &&& 1 <= row < quotes[q].dates@.len()
    &&& quotes[q].ticker@ == ticker
    &&& quotes[q].dates@[row] == date
    &&& signals.score(ticker, quotes[q].dates@[row - 1]) == Some(bar.score)
    &&& bar.open == quotes[q].open@[row]
    &&& bar.high == quotes[q].high@[row]
    &&& bar.low == quotes[q].low@[row]
    &&& bar.close == quotes[q].close@[row]
}

proof fn lemma_source<N>(
    quotes: Seq<TickerQuotes<N>>,
    kept: Seq<Seq<bool>>,
    count: nat,
    rows: nat,
    ticker: Seq<char>,
    day: i32,
)
    requires
        kept.len() == quotes.len(),
        count <= quotes.len(),
        rows > 0 ==> count < quotes.len() && rows <= quotes[count as int].dates@.len(),
    ensures
        source_row(quotes, kept, count, rows, ticker, day) matches Some((q, row)) ==> {
            &&& 0 <= q < quotes.len()
            &&& 0 <= row < quotes[q].dates@.len()
            &&& quotes[q].ticker@ == ticker
            &&& quotes[q].dates@[row] == day
            &&& kept[q][row]
        },
        source_row(quotes, kept, count, rows, ticker, day) is None ==> forall|q: int, row: int|
            #![trigger kept[q][row]]
            (0 <= q < count && 0 <= row < quotes[q].dates@.len() || q == count && 0 <= row < rows)
                && quotes[q].ticker@ == ticker && quotes[q].dates@[row] == day ==> !kept[q][row],
    decreases count, rows,
{
    if rows > 0 {
        let row = rows - 1;
        if !(quotes[count as int].ticker@ == ticker && quotes[count as int].dates@[row] == day
            && kept[count as int][row]) {
            lemma_source(quotes, kept, count, row as nat, ticker, day);
        }
    } else if count > 0 {
        lemma_source(
            quotes,
            kept,
            (count - 1) as nat,
            quotes[count - 1].dates@.len(),
            ticker,
            day,
        );
    }
}

/// Every bar of the stream is a row of the quotes, under its own date and ticker and at its own
/// prices, and carries the signal of the row before.
pub proof fn bars_are_rows_with_the_signal_before<N: Number>(
    quotes: Seq<TickerQuotes<N>>,
    signals: Signals<N>,
    days: Seq<TradingDay<N>>,
    d: int,
    slot: int,
)
    requires
        days_are(quotes, signals, days),
        0 <= d < days.len(),
        0 <= slot < days[d].bars@.len(),
    ensures
        exists|q: int, row: int| #[trigger]
            made_of(
                quotes,
                signals,
                q,
                row,
                days[d].bars@[slot].ticker@,
                days[d].date,
                days[d].bars@[slot].bar,
            ),
{
    let kept = choose|kept: Seq<Seq<bool>>|
        {
            &&& kept.len() == quotes.len()
            &&& forall|q: int|
                0 <= q < quotes.len() ==> rows_kept(quotes[q], signals, #[trigger] kept[q])
            &&& #[trigger] bars_follow(quotes, signals, kept, quotes.len(), 0, days)
        };
    let (ticker, date) = (days[d].bars@[slot].ticker@, days[d].date);
    lemma_on_day(days, d, slot);
    let source = source_row(quotes, kept, quotes.len(), 0, ticker, date);
    lemma_source(quotes, kept, quotes.len(), 0, ticker, date);
    assert(bar_matches(quotes, signals, source, bar_on(days, ticker, date)));
    let (q, row) = source->0;
    assert(made_of(quotes, signals, q, row, ticker, date, days[d].bars@[slot].bar));
}

proof fn lemma_on_day<N: Number>(days: Seq<TradingDay<N>>, d: int, slot: int)
    requires
        day_stream(days),
        0 <= d < days.len(),
        0 <= slot < days[d].bars@.len(),
    ensures
        bar_on(days, days[d].bars@[slot].ticker@, days[d].date) == Some(days[d].bars@[slot].bar),
{
    let date = days[d].date;
    assert(dated(days, date, d));
    let at = choose|at: int| dated(days, date, at);
    if at < d {
        assert(days[at].date < days[d].date);
    } else if d < at {
        assert(days[d].date < days[at].date);
    }
    assert(days[d].wf());
    lemma_bar_of(days[d].bars@, slot);
}

/// Every row that has a signal on the row before and four finite prices makes a bar: its ticker
/// has one on the day of its date.
pub proof fn every_tradable_row_makes_a_bar<N: Number>(
    quotes: Seq<TickerQuotes<N>>,
    signals: Signals<N>,
    days: Seq<TradingDay<N>>,
    q: int,
    row: int,
)
    requires
        one_result::<N>(),
        days_are(quotes, signals, days),
        0 <= q < quotes.len(),
        1 <= row < quotes[q].dates@.len(),
        signals.score(quotes[q].ticker@, quotes[q].dates@[row - 1]) is Some,
        finite_is(quotes[q].open@[row], true),
        finite_is(quotes[q].low@[row], true),
        finite_is(quotes[q].high@[row], true),
        finite_is(quotes[q].close@[row], true),
    ensures
        exists|d: int, slot: int|
            {
                &&& 0 <= d < days.len()
                &&& 0 <= slot < days[d].bars@.len()
                &&& days[d].date == quotes[q].dates@[row]
                &&& (#[trigger] days[d].bars@[slot]).ticker@ == quotes[q].ticker@
            },
{
    let kept = choose|kept: Seq<Seq<bool>>|
        {
            &&& kept.len() == quotes.len()
            &&& forall|q: int|
                0 <= q < quotes.len() ==> rows_kept(quotes[q], signals, #[trigger] kept[q])
            &&& #[trigger] bars_follow(quotes, signals, kept, quotes.len(), 0, days)
        };
    let (ticker, date) = (quotes[q].ticker@, quotes[q].dates@[row]);
    assert(rows_kept(quotes[q], signals, kept[q]));
    assert(lagged_score(quotes[q], signals, row) is Some);
    assert(tradable_is(quotes[q], row, kept[q][row]));
    assert(kept[q][row]);
    let source = source_row(quotes, kept, quotes.len(), 0, ticker, date);
    lemma_source(quotes, kept, quotes.len(), 0, ticker, date);
    assert(source is Some);
    assert(bar_matches(quotes, signals, source, bar_on(days, ticker, date)));
    let d = choose|at: int| dated(days, date, at);
    let slot = choose|slot: int| bar_stands(days[d].bars@, ticker, slot);
    assert(days[d].bars@[slot].ticker@ == ticker);
}

/// The days of the stream ascend, each has a bar, and none has two of one ticker.
pub proof fn days_of_the_stream_ascend<N: Number>(
    quotes: Seq<TickerQuotes<N>>,
    signals: Signals<N>,
    days: Seq<TradingDay<N>>,
    a: int,
    b: int,
)
    requires
        days_are(quotes, signals, days),
        0 <= a < b < days.len(),
    ensures
        days[a].date < days[b].date,
        days[a].bars@.len() > 0,
        forall|i: int, j: int|
            0 <= i < j < days[a].bars@.len() ==> (#[trigger] days[a].bars@[i]).ticker@ != (
            #[trigger] days[a].bars@[j]).ticker@,
{
    assert(days[a].wf());
}

/// In an exact format a bar calls for a sale if and only if its score is below zero.
pub proof fn scores_below_zero_call_for_a_sale<N: Number>(
    value: spec_fn(N) -> real,
    quotes: Seq<TickerQuotes<N>>,
    signals: Signals<N>,
    days: Seq<TradingDay<N>>,
    d: int,
    slot: int,
)
    requires
        exact(value),
        days_are(quotes, signals, days),
        0 <= d < days.len(),
        0 <= slot < days[d].bars@.len(),
    ensures
        days[d].bars@[slot].bar.action == Action::Sell <==> value(days[d].bars@[slot].bar.score)
            < 0 as real,
        days[d].bars@[slot].bar.action == Action::Buy <==> value(days[d].bars@[slot].bar.score)
            >= 0 as real,
{
    let kept = choose|kept: Seq<Seq<bool>>|
        {
            &&& kept.len() == quotes.len()
            &&& forall|q: int|
                0 <= q < quotes.len() ==> rows_kept(quotes[q], signals, #[trigger] kept[q])
            &&& #[trigger] bars_follow(quotes, signals, kept, quotes.len(), 0, days)
        };
    let (ticker, date) = (days[d].bars@[slot].ticker@, days[d].date);
    let bar = days[d].bars@[slot].bar;
    lemma_on_day(days, d, slot);
    let source = source_row(quotes, kept, quotes.len(), 0, ticker, date);
    assert(bar_matches(quotes, signals, source, bar_on(days, ticker, date)));
    let (zero, below) = choose|zero: N, below: bool|
        {
            &&& ratio_is(0, 1, zero)
            &&& #[trigger] exceeds_is(zero, bar.score, below)
            &&& bar.action == if below {
                Action::Sell
            } else {
                Action::Buy
            }
        };
    lemma_whole(value, 0, zero);
}

proof fn lemma_window<N>(
    windows: Seq<InferenceWindow<N>>,
    scores: Seq<N>,
    count: nat,
    w: int,
)
    requires
        0 <= w < count <= windows.len(),
        forall|later: int|
            w < later < count ==> !((#[trigger] windows[later]).ticker@ == windows[w].ticker@
                && windows[later].date == windows[w].date),
    ensures
        window_score(windows, scores, count, windows[w].ticker@, windows[w].date) == Some(
            scores[w],
        ),
    decreases count,
{
    if w < count - 1 {
        assert(!(windows[count - 1].ticker@ == windows[w].ticker@ && windows[count - 1].date
            == windows[w].date));
        lemma_window(windows, scores, (count - 1) as nat, w);
    }
}

proof fn lemma_no_window<N>(
    windows: Seq<InferenceWindow<N>>,
    scores: Seq<N>,
    count: nat,
    ticker: Seq<char>,
    day: i32,
)
    requires
        count <= windows.len(),
        forall|w: int|
            0 <= w < count ==> !((#[trigger] windows[w]).ticker@ == ticker && windows[w].date
                == day),
    ensures
        window_score(windows, scores, count, ticker, day) is None,
    decreases count,
{
    if count > 0 {
        assert(!(windows[count - 1].ticker@ == ticker && windows[count - 1].date == day));
        lemma_no_window(windows, scores, (count - 1) as nat, ticker, day);
    }
}

/// The signal of a ticker on a day is the score of its last window dated so, and there is none
/// without such a window.
pub proof fn last_window_gives_the_signal<N: Copy>(
    windows: Vec<InferenceWindow<N>>,
    scores: Vec<N>,
    signals: Signals<N>,
    w: int,
    ticker: Seq<char>,
    day: i32,
)
    requires
        call_ensures(
            crate::command::backtest::index_signals::<N>,
            (&windows, &scores),
            signals,
        ),
        windows@.len() <= scores@.len(),
    ensures
        0 <= w < windows@.len() && (forall|later: int|
            w < later < windows@.len() ==> !((#[trigger] windows@[later]).ticker@
                == windows@[w].ticker@ && windows@[later].date == windows@[w].date))
            ==> signals.score(windows@[w].ticker@, windows@[w].date) == Some(scores@[w]),
        (forall|w: int|
            0 <= w < windows@.len() ==> !((#[trigger] windows@[w]).ticker@ == ticker
                && windows@[w].date == day)) ==> signals.score(ticker, day) is None,
{
    if 0 <= w < windows@.len() && (forall|later: int|
        w < later < windows@.len() ==> !((#[trigger] windows@[later]).ticker@
            == windows@[w].ticker@ && windows@[later].date == windows@[w].date)) {
        lemma_window(windows@, scores@, windows@.len(), w);
        assert(signals.score(windows@[w].ticker@, windows@[w].date) == window_score(
            windows@,
            scores@,
            windows@.len(),
            windows@[w].ticker@,
            windows@[w].date,
        ));
    }
    if forall|w: int|
        0 <= w < windows@.len() ==> !((#[trigger] windows@[w]).ticker@ == ticker
            && windows@[w].date == day) {
        lemma_no_window(windows@, scores@, windows@.len(), ticker, day);
        assert(signals.score(ticker, day) == window_score(
            windows@,
            scores@,
            windows@.len(),
            ticker,
            day,
        ));
    }
}

/// All four prices of every bar of the stream are finite.
pub proof fn bars_have_four_finite_prices<N: Number>(
    quotes: Seq<TickerQuotes<N>>,
    signals: Signals<N>,
    days: Seq<TradingDay<N>>,
    d: int,
    slot: int,
)
    requires
        days_are(quotes, signals, days),
        0 <= d < days.len(),
        0 <= slot < days[d].bars@.len(),
    ensures
        finite_is(days[d].bars@[slot].bar.open, true),
        finite_is(days[d].bars@[slot].bar.low, true),
        finite_is(days[d].bars@[slot].bar.high, true),
        finite_is(days[d].bars@[slot].bar.close, true),
{
    let kept = choose|kept: Seq<Seq<bool>>|
        {
            &&& kept.len() == quotes.len()
            &&& forall|q: int|
                0 <= q < quotes.len() ==> rows_kept(quotes[q], signals, #[trigger] kept[q])
            &&& #[trigger] bars_follow(quotes, signals, kept, quotes.len(), 0, days)
        };
    let (ticker, date) = (days[d].bars@[slot].ticker@, days[d].date);
    lemma_on_day(days, d, slot);
    let source = source_row(quotes, kept, quotes.len(), 0, ticker, date);
    lemma_source(quotes, kept, quotes.len(), 0, ticker, date);
    assert(bar_matches(quotes, signals, source, bar_on(days, ticker, date)));
    let (q, row) = source->0;
    assert(rows_kept(quotes[q], signals, kept[q]));
    assert(tradable_is(quotes[q], row, kept[q][row]));
}

} // verus!
