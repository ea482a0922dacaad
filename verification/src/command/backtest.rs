//! From predicted scores and raw prices to the day stream that the simulation walks.
use vstd::prelude::*;

use crate::number::Number;
#[allow(unused_imports)]
use crate::number::{exceeds_is, finite_is, ratio_is};
use crate::portfolio::types::{find_bar, Action, DayBar, TickerBar, TradingDay};
#[allow(unused_imports)]
use crate::portfolio::types::{bar_of, bar_stands, distinct_bars};
use crate::store::{InferenceWindow, TickerQuotes};

verus! {

/// The scores of one ticker by signal date.
pub struct TickerSignals<N> {
    pub ticker: String,
    pub dates: Vec<i32>,
    /// One score per date.
    pub scores: Vec<N>,
}

/// Every ticker's scores.
pub struct Signals<N> {
    pub tickers: Vec<TickerSignals<N>>,
}

/// The entry at `at` is that of `ticker`.
pub open spec fn signals_stand<N>(
    list: Seq<TickerSignals<N>>,
    ticker: Seq<char>,
    at: int,
) -> bool {
    0 <= at < list.len() && list[at].ticker@ == ticker
}

/// The entry at `at` is that of `day`.
pub open spec fn day_stands(dates: Seq<i32>, day: i32, at: int) -> bool {
    0 <= at < dates.len() && dates[at] == day
}

/// The score of `day`, if there is one.
pub open spec fn score_on<N>(signals: TickerSignals<N>, day: i32) -> Option<N> {
    if exists|at: int| day_stands(signals.dates@, day, at) {
        Some(signals.scores@[choose|at: int| day_stands(signals.dates@, day, at)])
    } else {
        None
    }
}

impl<N> TickerSignals<N> {
    /// There is one score per date, and no date occurs twice.
    pub open spec fn wf(&self) -> bool {
        &&& self.scores@.len() == self.dates@.len()
        &&& self.dates@.no_duplicates()
    }
}

impl<N> Signals<N> {
    /// No ticker has two entries, and every entry is well-formed.
    pub open spec fn wf(&self) -> bool {
        &&& forall|i: int, j: int|
            #![trigger self.tickers@[i], self.tickers@[j]]
            0 <= i < j < self.tickers@.len() ==> self.tickers@[i].ticker@
                != self.tickers@[j].ticker@
        &&& forall|i: int| 0 <= i < self.tickers@.len() ==> (#[trigger] self.tickers@[i]).wf()
    }

    /// The score of `ticker` on `day`, if there is one.
    pub open spec fn score(&self, ticker: Seq<char>, day: i32) -> Option<N> {
        if exists|at: int| signals_stand(self.tickers@, ticker, at) {
            score_on(
                self.tickers@[choose|at: int| signals_stand(self.tickers@, ticker, at)],
                day,
            )
        } else {
            None
        }
    }
}

/// The score that the first `count` windows give `ticker` on `day`: that of the last window
/// of the ticker that is dated so.
pub open spec fn window_score<N>(
    windows: Seq<InferenceWindow<N>>,
    scores: Seq<N>,
    count: nat,
    ticker: Seq<char>,
    day: i32,
) -> Option<N>
    decreases count,
{
    if count == 0 {
        None
    } else if windows[count - 1].ticker@ == ticker && windows[count - 1].date == day {
        Some(scores[count - 1])
    } else {
        window_score(windows, scores, (count - 1) as nat, ticker, day)
    }
}

proof fn lemma_score_on<N>(signals: TickerSignals<N>, at: int)
    requires
        signals.wf(),
        0 <= at < signals.dates@.len(),
    ensures
        score_on(signals, signals.dates@[at]) == Some(signals.scores@[at]),
{
    assert(day_stands(signals.dates@, signals.dates@[at], at));
    let found = choose|i: int| day_stands(signals.dates@, signals.dates@[at], i);
    assert(day_stands(signals.dates@, signals.dates@[at], found));
}

proof fn lemma_score<N>(signals: Signals<N>, at: int, day: i32)
    requires
        signals.wf(),
        0 <= at < signals.tickers@.len(),
    ensures
        signals.score(signals.tickers@[at].ticker@, day) == score_on(signals.tickers@[at], day),
{
    let ticker = signals.tickers@[at].ticker@;
    assert(signals_stand(signals.tickers@, ticker, at));
    let found = choose|i: int| signals_stand(signals.tickers@, ticker, i);
    assert(signals_stand(signals.tickers@, ticker, found));
    if found < at {
        assert(signals.tickers@[found].ticker@ != signals.tickers@[at].ticker@);
    } else if at < found {
        assert(signals.tickers@[at].ticker@ != signals.tickers@[found].ticker@);
    }
}

impl<N: Copy> TickerSignals<N> {
    /// Where the entry of `day` stands, the number of entries if there is none.
    fn find(&self, day: i32) -> (at: usize)
        requires
            self.wf(),
        ensures
            at <= self.dates@.len(),
            at < self.dates@.len() ==> self.dates@[at as int] == day && score_on(*self, day)
                == Some(self.scores@[at as int]),
            at == self.dates@.len() ==> score_on(*self, day) is None && !self.dates@.contains(day),
    {
        let mut at: usize = 0;
        while at < self.dates.len()
            invariant
                at <= self.dates@.len(),
                self.wf(),
                forall|i: int| 0 <= i < at ==> #[trigger] self.dates@[i] != day,
            decreases self.dates.len() - at,
        {
            if self.dates[at] == day {
                proof {
                    lemma_score_on(*self, at as int);
                }
                return at;
            }
            at = at + 1;
        }
        at
    }

    /// Set the score of `day`.
    fn set(&mut self, day: i32, score: N)
        requires
            old(self).wf(),
        ensures
            final(self).wf(),
            final(self).ticker == old(self).ticker,
            forall|other: i32| #[trigger]
                score_on(*final(self), other) == (if other == day {
                    Some(score)
                } else {
                    score_on(*old(self), other)
                }),
    {
        let ghost before = *self;
        let at = self.find(day);
        if at < self.dates.len() {
            self.scores.set(at, score);
        } else {
            self.dates.push(day);
            self.scores.push(score);
        }
        proof {
            let after = *self;
            assert(after.dates@[at as int] == day);
            assert(after.wf());
            lemma_score_on(after, at as int);
            assert forall|other: i32| other != day implies #[trigger] score_on(after, other)
                == score_on(before, other) by {
                if exists|i: int| day_stands(before.dates@, other, i) {
                    let i = choose|i: int| day_stands(before.dates@, other, i);
                    assert(day_stands(before.dates@, other, i));
                    assert(after.dates@[i] == before.dates@[i]);
                    lemma_score_on(after, i);
                } else if exists|i: int| day_stands(after.dates@, other, i) {
                    let i = choose|i: int| day_stands(after.dates@, other, i);
                    assert(day_stands(before.dates@, other, i));
                }
            }
        }
    }
}

impl<N: Copy> Signals<N> {
    /// Where the entry of `ticker` stands, searched from the end; the number of entries if
    /// there is none.
    fn find(&self, ticker: &String) -> (at: usize)
        requires
            self.wf(),
        ensures
            at <= self.tickers@.len(),
            at < self.tickers@.len() ==> self.tickers@[at as int].ticker@ == ticker@,
            at == self.tickers@.len() ==> forall|i: int|
                0 <= i < self.tickers@.len() ==> (#[trigger] self.tickers@[i]).ticker@ != ticker@,
    {
        let mut at: usize = self.tickers.len();
        while at > 0
            invariant
                at <= self.tickers@.len(),
                forall|i: int|
                    at <= i < self.tickers@.len() ==> (#[trigger] self.tickers@[i]).ticker@
                        != ticker@,
            decreases at,
        {
            if self.tickers[at - 1].ticker == *ticker {
                return at - 1;
            }
            at = at - 1;
        }
        self.tickers.len()
    }

    /// Set the score of `ticker` on `day`.
    fn set(&mut self, ticker: &String, day: i32, score: N)
        requires
            old(self).wf(),
        ensures
            final(self).wf(),
            forall|name: Seq<char>, other: i32| #[trigger]
                final(self).score(name, other) == (if name == ticker@ && other == day {
                    Some(score)
                } else {
                    old(self).score(name, other)
                }),
    {
        let ghost before = *self;
        let at = self.find(ticker);
        if at == self.tickers.len() {
            self.tickers.push(
                TickerSignals { ticker: ticker.clone(), dates: Vec::new(), scores: Vec::new() },
            );
        }
        let ghost middle = *self;
        proof {
            assert(middle.wf());
            assert forall|name: Seq<char>, other: i32| #[trigger]
                middle.score(name, other) == before.score(name, other) by {
                lemma_same_scores(before, middle, name, other);
            }
        }
        self.tickers[at].set(day, score);
        proof {
            let after = *self;
            assert(after.tickers@.len() == middle.tickers@.len());
            assert(forall|i: int|
                0 <= i < middle.tickers@.len() && i != at ==> #[trigger] after.tickers@[i]
                    == middle.tickers@[i]);
            assert(after.wf());
            assert forall|name: Seq<char>, other: i32| #[trigger]
                after.score(name, other) == (if name == ticker@ && other == day {
                    Some(score)
                } else {
                    before.score(name, other)
                }) by {
                assert(middle.score(name, other) == before.score(name, other));
                if name == ticker@ {
                    lemma_score(after, at as int, other);
                    lemma_score(middle, at as int, other);
                } else if exists|i: int| signals_stand(middle.tickers@, name, i) {
                    let i = choose|i: int| signals_stand(middle.tickers@, name, i);
                    assert(signals_stand(middle.tickers@, name, i));
                    assert(after.tickers@[i] == middle.tickers@[i]);
                    lemma_score(after, i, other);
                    lemma_score(middle, i, other);
                } else if exists|i: int| signals_stand(after.tickers@, name, i) {
                    let i = choose|i: int| signals_stand(after.tickers@, name, i);
                    assert(signals_stand(middle.tickers@, name, i));
                }
            }
        }
    }
}

/// An entry without scores changes no score.
proof fn lemma_same_scores<N>(before: Signals<N>, after: Signals<N>, name: Seq<char>, day: i32)
    requires
        before.wf(),
        after.wf(),
        before.tickers@.len() <= after.tickers@.len() <= before.tickers@.len() + 1,
        forall|i: int|
            0 <= i < before.tickers@.len() ==> #[trigger] after.tickers@[i] == before.tickers@[i],
        after.tickers@.len() > before.tickers@.len() ==> after.tickers@.last().dates@.len() == 0,
    ensures
        after.score(name, day) == before.score(name, day),
{
    if exists|i: int| signals_stand(before.tickers@, name, i) {
        let i = choose|i: int| signals_stand(before.tickers@, name, i);
        assert(signals_stand(before.tickers@, name, i));
        assert(after.tickers@[i] == before.tickers@[i]);
        lemma_score(before, i, day);
        lemma_score(after, i, day);
    } else if exists|i: int| signals_stand(after.tickers@, name, i) {
        let i = choose|i: int| signals_stand(after.tickers@, name, i);
        assert(signals_stand(after.tickers@, name, i));
        assert(i == before.tickers@.len()) by {
            if i < before.tickers@.len() {
                assert(signals_stand(before.tickers@, name, i));
            }
        }
        lemma_score(after, i, day);
        assert(score_on(after.tickers@[i], day) is None);
    }
}

/// Index each predicted score by ticker and signal date. A later window of the same ticker
/// and date overrides an earlier one; windows without a score are left out.
pub fn index_signals<N: Copy>(windows: &Vec<InferenceWindow<N>>, scores: &Vec<N>) -> (signals:
    Signals<N>)
    ensures
        signals.wf(),
        forall|ticker: Seq<char>, day: i32| #[trigger]
            signals.score(ticker, day) == window_score(
                windows@,
                scores@,
                if windows@.len() <= scores@.len() {
                    windows@.len()
                } else {
                    scores@.len()
                },
                ticker,
                day,
            ),
{
    let mut signals: Signals<N> = Signals { tickers: Vec::new() };
    let mut at: usize = 0;
    while at < windows.len() && at < scores.len()
        invariant
            at <= windows.len(),
            at <= scores.len(),
            signals.wf(),
            forall|ticker: Seq<char>, day: i32| #[trigger]
                signals.score(ticker, day) == window_score(
                    windows@,
                    scores@,
                    at as nat,
                    ticker,
                    day,
                ),
        decreases windows.len() - at,
    {
        let window = &windows[at];
        signals.set(&window.ticker, window.date, scores[at]);
        at = at + 1;
    }
    signals
}

/// Whether a row can be traded is `tradable`: all four of its prices are finite.
pub open spec fn tradable_is<N: Number>(quotes: TickerQuotes<N>, row: int, tradable: bool) -> bool {
    exists|open: bool, low: bool, high: bool, close: bool|
        {
            &&& #[trigger] finite_is(quotes.open@[row], open)
            &&& #[trigger] finite_is(quotes.low@[row], low)
            &&& #[trigger] finite_is(quotes.high@[row], high)
            &&& #[trigger] finite_is(quotes.close@[row], close)
            &&& tradable == (open && low && high && close)
        }
}

/// The signal that drives orders on the day of `row`: that of the row before, so that no
/// order looks ahead.
pub open spec fn lagged_score<N>(quotes: TickerQuotes<N>, signals: Signals<N>, row: int) -> Option<
    N,
> {
    if row < 1 {
        None
    } else {
        signals.score(quotes.ticker@, quotes.dates@[row - 1])
    }
}

/// `kept` says of each row whether it makes a bar: it has a lagged signal and can be traded.
pub open spec fn rows_kept<N: Number>(
    quotes: TickerQuotes<N>,
    signals: Signals<N>,
    kept: Seq<bool>,
) -> bool {
    &&& kept.len() == quotes.dates@.len()
    &&& forall|row: int|
        0 <= row < kept.len() ==> if lagged_score(quotes, signals, row) is Some {
            tradable_is(quotes, row, #[trigger] kept[row])
        } else {
            !kept[row]
        }
}

/// `action` is the model's call that a score stands for: a below-average one is a Sell, any
/// other a Buy.
pub open spec fn action_is<N: Number>(score: N, action: Action) -> bool {
    exists|zero: N, below: bool|
        {
            &&& ratio_is(0, 1, zero)
            &&& #[trigger] exceeds_is(zero, score, below)
            &&& action == if below {
                Action::Sell
            } else {
                Action::Buy
            }
        }
}

/// `bar` is that of `row`: the lagged score and the call it stands for, and the row's own
/// prices.
pub open spec fn bar_is<N: Number>(
    quotes: TickerQuotes<N>,
    signals: Signals<N>,
    row: int,
    bar: DayBar<N>,
) -> bool {
    &&& lagged_score(quotes, signals, row) == Some(bar.score)
    &&& action_is(bar.score, bar.action)
    &&& bar.open == quotes.open@[row]
    &&& bar.low == quotes.low@[row]
    &&& bar.high == quotes.high@[row]
    &&& bar.close == quotes.close@[row]
}

/// The last row, of the first `count` quotes and the first `rows` rows of the next, that
/// makes a bar for `ticker` on `day`.
pub open spec fn source_row<N>(
    quotes: Seq<TickerQuotes<N>>,
    kept: Seq<Seq<bool>>,
    count: nat,
    rows: nat,
    ticker: Seq<char>,
    day: i32,
) -> Option<(int, int)>
    decreases count, rows,
{
    if rows > 0 {
        let row = rows - 1;
        if quotes[count as int].ticker@ == ticker && quotes[count as int].dates@[row] == day
            && kept[count as int][row] {
            Some((count as int, row))
        } else {
            source_row(quotes, kept, count, row as nat, ticker, day)
        }
    } else if count == 0 {
        None
    } else {
        source_row(
            quotes,
            kept,
            (count - 1) as nat,
            quotes[count - 1].dates@.len(),
            ticker,
            day,
        )
    }
}

/// The day at `at` is dated `date`.
pub open spec fn dated<N>(days: Seq<TradingDay<N>>, date: i32, at: int) -> bool {
    0 <= at < days.len() && days[at].date == date
}

/// The bar of `ticker` on the day dated `date`, if there is one.
pub open spec fn bar_on<N>(days: Seq<TradingDay<N>>, ticker: Seq<char>, date: i32) -> Option<
    DayBar<N>,
> {
    if exists|at: int| dated(days, date, at) {
        bar_of(days[choose|at: int| dated(days, date, at)].bars@, ticker)
    } else {
        None
    }
}

/// The days ascend strictly, each has a bar, and no day has two bars of one ticker.
pub open spec fn day_stream<N>(days: Seq<TradingDay<N>>) -> bool {
    &&& forall|i: int, j: int|
        #![trigger days[i], days[j]]
        0 <= i < j < days.len() ==> days[i].date < days[j].date
    &&& forall|i: int|
        0 <= i < days.len() ==> (#[trigger] days[i]).wf() && days[i].bars@.len() > 0
}

/// `found` is the bar that `source` gives, if it is one.
pub open spec fn bar_matches<N: Number>(
    quotes: Seq<TickerQuotes<N>>,
    signals: Signals<N>,
    source: Option<(int, int)>,
    found: Option<DayBar<N>>,
) -> bool {
    match source {
        None => found is None,
        Some((at, row)) => found matches Some(bar) && bar_is(quotes[at], signals, row, bar),
    }
}

proof fn lemma_bar_of<N>(bars: Seq<TickerBar<N>>, slot: int)
    requires
        distinct_bars(bars),
        0 <= slot < bars.len(),
    ensures
        bar_of(bars, bars[slot].ticker@) == Some(bars[slot].bar),
{
    let ticker = bars[slot].ticker@;
    assert(bar_stands(bars, ticker, slot));
    let found = choose|i: int| bar_stands(bars, ticker, i);
    assert(bar_stands(bars, ticker, found));
    if found < slot {
        assert(bars[found].ticker@ != bars[slot].ticker@);
    } else if slot < found {
        assert(bars[slot].ticker@ != bars[found].ticker@);
    }
}

proof fn lemma_bar_on<N>(days: Seq<TradingDay<N>>, at: int, ticker: Seq<char>)
    requires
        day_stream(days),
        0 <= at < days.len(),
    ensures
        bar_on(days, ticker, days[at].date) == bar_of(days[at].bars@, ticker),
{
    let date = days[at].date;
    assert(dated(days, date, at));
    let found = choose|i: int| dated(days, date, i);
    assert(dated(days, date, found));
    if found < at {
        assert(days[found].date < days[at].date);
    } else if at < found {
        assert(days[at].date < days[found].date);
    }
}

/// Put a bar under its ticker, in place of the one that stands there.
fn put_bar<N: Number>(bars: &mut Vec<TickerBar<N>>, ticker: &String, bar: DayBar<N>)
    requires
        distinct_bars(old(bars)@),
    ensures
        distinct_bars(final(bars)@),
        final(bars)@.len() > 0,
        forall|name: Seq<char>| #[trigger]
            bar_of(final(bars)@, name) == (if name == ticker@ {
                Some(bar)
            } else {
                bar_of(old(bars)@, name)
            }),
{
    let ghost before = bars@;
    let slot = find_bar(bars, ticker);
    if slot < bars.len() {
        bars[slot].bar = bar;
    } else {
        proof {
            assert forall|i: int| 0 <= i < before.len() implies (#[trigger] before[i]).ticker@
                != ticker@ by {
                lemma_bar_of(before, i);
            }
        }
        bars.push(TickerBar { ticker: ticker.clone(), bar });
    }
    proof {
        let after = bars@;
        assert(forall|i: int|
            0 <= i < before.len() && i != slot ==> #[trigger] after[i] == before[i]);
        assert(after[slot as int].ticker@ == ticker@);
        assert(distinct_bars(after));
        lemma_bar_of(after, slot as int);
        assert forall|name: Seq<char>| name != ticker@ implies #[trigger] bar_of(after, name)
            == bar_of(before, name) by {
            if exists|i: int| bar_stands(before, name, i) {
                let i = choose|i: int| bar_stands(before, name, i);
                assert(bar_stands(before, name, i));
                assert(after[i] == before[i]);
                lemma_bar_of(after, i);
                lemma_bar_of(before, i);
            } else if exists|i: int| bar_stands(after, name, i) {
                let i = choose|i: int| bar_stands(after, name, i);
                assert(bar_stands(before, name, i));
            }
        }
    }
}

/// Where the days from `date` on begin.
fn find_day<N>(days: &Vec<TradingDay<N>>, date: i32) -> (at: usize)
    requires
        day_stream(days@),
    ensures
        at <= days@.len(),
        forall|i: int| 0 <= i < at ==> (#[trigger] days@[i]).date < date,
        forall|i: int| at <= i < days@.len() ==> (#[trigger] days@[i]).date >= date,
{
    let mut low: usize = 0;
    let mut high: usize = days.len();
    while low < high
        invariant
            low <= high <= days@.len(),
            day_stream(days@),
            forall|i: int| 0 <= i < low ==> (#[trigger] days@[i]).date < date,
            forall|i: int| high <= i < days@.len() ==> (#[trigger] days@[i]).date >= date,
        decreases high - low,
    {
        let middle: usize = low + (high - low) / 2;
        if days[middle].date < date {
            assert forall|i: int| 0 <= i < middle + 1 implies (#[trigger] days@[i]).date < date by {
                if i < middle {
                    assert(days@[i].date < days@[middle as int].date);
                }
            }
            low = middle + 1;
        } else {
            assert forall|i: int| middle <= i < days@.len() implies (#[trigger] days@[i]).date
                >= date by {
                if i > middle {
                    assert(days@[middle as int].date < days@[i].date);
                }
            }
            high = middle;
        }
    }
    low
}

/// Put a bar under its date and ticker.
fn insert_bar<N: Number>(
    days: &mut Vec<TradingDay<N>>,
    date: i32,
    ticker: &String,
    bar: DayBar<N>,
)
    requires
        day_stream(old(days)@),
    ensures
        day_stream(final(days)@),
        forall|name: Seq<char>, other: i32| #[trigger]
            bar_on(final(days)@, name, other) == (if name == ticker@ && other == date {
                Some(bar)
            } else {
                bar_on(old(days)@, name, other)
            }),
{
    let ghost before = days@;
    let at = find_day(days, date);
    if at < days.len() && days[at].date == date {
        let ghost standing = days@[at as int].bars@;
        assert(days@[at as int].wf());
        put_bar(&mut days[at].bars, ticker, bar);
        proof {
            let after = days@;
            assert(after.len() == before.len());
            assert(forall|i: int|
                0 <= i < before.len() && i != at ==> #[trigger] after[i] == before[i]);
            assert(after[at as int].date == date);
            assert(day_stream(after));
            assert forall|name: Seq<char>, other: i32| #[trigger]
                bar_on(after, name, other) == (if name == ticker@ && other == date {
                    Some(bar)
                } else {
                    bar_on(before, name, other)
                }) by {
                if other == date {
                    lemma_bar_on(after, at as int, name);
                    lemma_bar_on(before, at as int, name);
                } else if exists|i: int| dated(before, other, i) {
                    let i = choose|i: int| dated(before, other, i);
                    assert(dated(before, other, i));
                    assert(after[i] == before[i]);
                    lemma_bar_on(after, i, name);
                    lemma_bar_on(before, i, name);
                } else if exists|i: int| dated(after, other, i) {
                    let i = choose|i: int| dated(after, other, i);
                    assert(dated(before, other, i));
                }
            }
        }
    } else {
        let mut bars: Vec<TickerBar<N>> = Vec::new();
        let ghost none = bars@;
        put_bar(&mut bars, ticker, bar);
        let day = TradingDay { date, bars };
        let ghost fresh = day;
        days.insert(at, day);
        proof {
            let after = days@;
            assert(after =~= before.insert(at as int, fresh));
            assert forall|i: int, j: int|
                #![trigger after[i], after[j]]
                0 <= i < j < after.len() implies after[i].date < after[j].date by {
                let p = if i <= at {
                    i
                } else {
                    i - 1
                };
                let q = if j <= at {
                    j
                } else {
                    j - 1
                };
                if i != at && j != at {
                    assert(before[p].date < before[q].date);
                } else if i == at {
                    assert(before[q].date >= date);
                } else {
                    assert(before[p].date < date);
                }
            }
            assert forall|i: int| 0 <= i < after.len() implies (#[trigger] after[i]).wf()
                && after[i].bars@.len() > 0 by {
                if i != at {
                    let p = if i < at {
                        i
                    } else {
                        i - 1
                    };
                    assert(before[p].wf());
                }
            }
            assert forall|name: Seq<char>, other: i32| #[trigger]
                bar_on(after, name, other) == (if name == ticker@ && other == date {
                    Some(bar)
                } else {
                    bar_on(before, name, other)
                }) by {
                if other == date {
                    lemma_bar_on(after, at as int, name);
                    assert(bar_of(none, name) is None);
                    assert(!exists|i: int| dated(before, other, i));
                } else if exists|i: int| dated(before, other, i) {
                    let i = choose|i: int| dated(before, other, i);
                    assert(dated(before, other, i));
                    let k = if i < at {
                        i
                    } else {
                        i + 1
                    };
                    assert(after[k] == before[i]);
                    lemma_bar_on(after, k, name);
                    lemma_bar_on(before, i, name);
                } else if exists|k: int| dated(after, other, k) {
                    let k = choose|k: int| dated(after, other, k);
                    assert(dated(after, other, k));
                    let i = if k < at {
                        k
                    } else {
                        k - 1
                    };
                    assert(dated(before, other, i));
                }
            }
        }
    }
}

/// There is one price of each kind per date.
pub open spec fn quotes_wf<N>(quotes: TickerQuotes<N>) -> bool {
    &&& quotes.open@.len() == quotes.dates@.len()
    &&& quotes.low@.len() == quotes.dates@.len()
    &&& quotes.high@.len() == quotes.dates@.len()
    &&& quotes.close@.len() == quotes.dates@.len()
}

/// `days` is the stream of the bars that the quotes and signals make: exactly those of the
/// kept rows, under their dates and tickers, the last of several.
pub open spec fn days_are<N: Number>(
    quotes: Seq<TickerQuotes<N>>,
    signals: Signals<N>,
    days: Seq<TradingDay<N>>,
) -> bool {
    &&& day_stream(days)
    &&& exists|kept: Seq<Seq<bool>>|
        {
            &&& kept.len() == quotes.len()
            &&& forall|q: int|
                0 <= q < quotes.len() ==> rows_kept(quotes[q], signals, #[trigger] kept[q])
            &&& #[trigger] bars_follow(quotes, signals, kept, quotes.len(), 0, days)
        }
}

/// The bars of `days` are those of the kept rows of the first `count` quotes and the first
/// `rows` rows of the next.
pub open spec fn bars_follow<N: Number>(
    quotes: Seq<TickerQuotes<N>>,
    signals: Signals<N>,
    kept: Seq<Seq<bool>>,
    count: nat,
    rows: nat,
    days: Seq<TradingDay<N>>,
) -> bool {
    forall|ticker: Seq<char>, day: i32|
        bar_matches(
            quotes,
            signals,
            source_row(quotes, kept, count, rows, ticker, day),
            #[trigger] bar_on(days, ticker, day),
        )
}

impl<N: Number> Signals<N> {
    /// The score of `ticker` on `day`, if there is one.
    pub fn get(&self, ticker: &String, day: i32) -> (score: Option<N>)
        requires
            self.wf(),
        ensures
            score == self.score(ticker@, day),
    {
        let at = self.find(ticker);
        if at == self.tickers.len() {
            return None;
        }
        proof {
            lemma_score(*self, at as int, day);
        }
        let found = &self.tickers[at];
        assert(self.tickers@[at as int].wf());
        let place = found.find(day);
        if place < found.dates.len() {
            Some(found.scores[place])
        } else {
            None
        }
    }
}

/// The model's call that a score stands for.
fn action_of<N: Number>(score: N) -> (action: Action)
    ensures
        action_is(score, action),
{
    let zero = N::from_ratio(0, 1);
    let below = zero.exceeds(score);
    assert(exceeds_is(zero, score, below));
    if below {
        Action::Sell
    } else {
        Action::Buy
    }
}

/// The bar of one row, if it has a lagged signal and can be traded.
fn row_bar<N: Number>(quotes: &TickerQuotes<N>, signals: &Signals<N>, row: usize) -> (bar: Option<
    DayBar<N>,
>)
    requires
        signals.wf(),
        quotes_wf(*quotes),
        row < quotes.dates@.len(),
    ensures
        lagged_score(*quotes, *signals, row as int) is None ==> bar is None,
        lagged_score(*quotes, *signals, row as int) is Some ==> tradable_is(
            *quotes,
            row as int,
            bar is Some,
        ),
        bar matches Some(made) ==> bar_is(*quotes, *signals, row as int, made),
{
    if row < 1 {
        return None;
    }
    match signals.get(&quotes.ticker, quotes.dates[row - 1]) {
        None => None,
        Some(score) => {
            let open = quotes.open[row].is_finite();
            let low = quotes.low[row].is_finite();
            let high = quotes.high[row].is_finite();
            let close = quotes.close[row].is_finite();
            let tradable = open && low && high && close;
            assert(finite_is(quotes.open@[row as int], open));
            assert(finite_is(quotes.low@[row as int], low));
            assert(finite_is(quotes.high@[row as int], high));
            assert(finite_is(quotes.close@[row as int], close));
            assert(tradable_is(*quotes, row as int, tradable));
            if tradable {
                Some(
                    DayBar {
                        score,
                        action: action_of(score),
                        open: quotes.open[row],
                        low: quotes.low[row],
                        high: quotes.high[row],
                        close: quotes.close[row],
                    },
                )
            } else {
                None
            }
        },
    }
}

/// Assemble the time-ordered day stream. The previous day's signal drives today's order (the
/// no-look-ahead lag), priced from today's bar; missing-price bars are skipped.
pub fn build_days<N: Number>(quotes: &Vec<TickerQuotes<N>>, signals: &Signals<N>) -> (days: Vec<
    TradingDay<N>,
>)
    requires
        signals.wf(),
        forall|q: int| 0 <= q < quotes@.len() ==> quotes_wf(#[trigger] quotes@[q]),
    ensures
        days_are(quotes@, *signals, days@),
{
    let mut days: Vec<TradingDay<N>> = Vec::new();
    let ghost mut kept: Seq<Seq<bool>> = Seq::empty();
    let mut at: usize = 0;
    while at < quotes.len()
        invariant
            at <= quotes@.len(),
            signals.wf(),
            forall|q: int| 0 <= q < quotes@.len() ==> quotes_wf(#[trigger] quotes@[q]),
            day_stream(days@),
            kept.len() == at,
            forall|q: int| 0 <= q < at ==> rows_kept(quotes@[q], *signals, #[trigger] kept[q]),
            bars_follow(quotes@, *signals, kept, at as nat, 0, days@),
        decreases quotes.len() - at,
    {
        assert(quotes_wf(quotes@[at as int]));
        let one = &quotes[at];
        let rows = one.dates.len();
        let ghost earlier = kept;
        let ghost mut here: Seq<bool> = Seq::empty();
        let mut row: usize = 0;
        proof {
            lemma_sources_grow(quotes@, *signals, kept, kept.push(here), at as nat, 0, days@);
        }
        while row < rows
            invariant
                at < quotes@.len(),
                signals.wf(),
                *one == quotes@[at as int],
                quotes_wf(*one),
                rows == one.dates@.len(),
                row <= rows,
                day_stream(days@),
                earlier.len() == at,
                here.len() == row,
                forall|i: int|
                    0 <= i < row ==> if lagged_score(*one, *signals, i) is Some {
                        tradable_is(*one, i, #[trigger] here[i])
                    } else {
                        !here[i]
                    },
                bars_follow(quotes@, *signals, earlier.push(here), at as nat, row as nat, days@),
            decreases rows - row,
        {
            let ghost before = days@;
            let ghost old_here = here;
            let bar = row_bar(one, signals, row);
            proof {
                here = here.push(bar is Some);
                lemma_sources_grow(
                    quotes@,
                    *signals,
                    earlier.push(old_here),
                    earlier.push(here),
                    at as nat,
                    row as nat,
                    days@,
                );
            }
            if let Some(made) = bar {
                insert_bar(&mut days, one.dates[row], &one.ticker, made);
            }
            proof {
                let now = earlier.push(here);
                assert forall|ticker: Seq<char>, day: i32| bar_matches(
                    quotes@,
                    *signals,
                    source_row(quotes@, now, at as nat, (row + 1) as nat, ticker, day),
                    #[trigger] bar_on(days@, ticker, day),
                ) by {
                    assert(bar_matches(
                        quotes@,
                        *signals,
                        source_row(quotes@, now, at as nat, row as nat, ticker, day),
                        bar_on(before, ticker, day),
                    ));
                    assert(now[at as int] == here);
                    assert(here[row as int] == bar is Some);
                }
            }
            row = row + 1;
        }
        proof {
            kept = earlier.push(here);
            assert(rows_kept(*one, *signals, here));
            assert forall|ticker: Seq<char>, day: i32| bar_matches(
                quotes@,
                *signals,
                source_row(quotes@, kept, (at + 1) as nat, 0, ticker, day),
                #[trigger] bar_on(days@, ticker, day),
            ) by {
                assert(source_row(quotes@, kept, (at + 1) as nat, 0, ticker, day) == source_row(
                    quotes@,
                    kept,
                    at as nat,
                    rows as nat,
                    ticker,
                    day,
                ));
            }
        }
        at = at + 1;
    }
    assert(bars_follow(quotes@, *signals, kept, quotes@.len(), 0, days@));
    days
}

/// What rows beyond those looked at are kept does not matter.
proof fn lemma_same_source<N>(
    quotes: Seq<TickerQuotes<N>>,
    kept: Seq<Seq<bool>>,
    longer: Seq<Seq<bool>>,
    count: nat,
    rows: nat,
    ticker: Seq<char>,
    day: i32,
)
    requires
        count <= kept.len(),
        count <= longer.len(),
        forall|q: int| 0 <= q < count ==> #[trigger] longer[q] == kept[q],
        rows > 0 ==> count < kept.len() && count < longer.len(),
        forall|i: int|
            0 <= i < rows ==> #[trigger] longer[count as int][i] == kept[count as int][i],
    ensures
        source_row(quotes, longer, count, rows, ticker, day) == source_row(
            quotes,
            kept,
            count,
            rows,
            ticker,
            day,
        ),
    decreases count, rows,
{
    if rows > 0 {
        assert(longer[count as int][rows - 1] == kept[count as int][rows - 1]);
        lemma_same_source(quotes, kept, longer, count, (rows - 1) as nat, ticker, day);
    } else if count > 0 {
        assert(longer[count - 1] == kept[count - 1]);
        lemma_same_source(
            quotes,
            kept,
            longer,
            (count - 1) as nat,
            quotes[count - 1].dates@.len(),
            ticker,
            day,
        );
    }
}

proof fn lemma_sources_grow<N: Number>(
    quotes: Seq<TickerQuotes<N>>,
    signals: Signals<N>,
    kept: Seq<Seq<bool>>,
    longer: Seq<Seq<bool>>,
    count: nat,
    rows: nat,
    days: Seq<TradingDay<N>>,
)
    requires
        count <= kept.len(),
        count <= longer.len(),
        forall|q: int| 0 <= q < count ==> #[trigger] longer[q] == kept[q],
        rows > 0 ==> count < kept.len() && count < longer.len(),
        forall|i: int|
            0 <= i < rows ==> #[trigger] longer[count as int][i] == kept[count as int][i],
        bars_follow(quotes, signals, kept, count, rows, days),
    ensures
        bars_follow(quotes, signals, longer, count, rows, days),
{
    assert forall|ticker: Seq<char>, day: i32| bar_matches(
        quotes,
        signals,
        source_row(quotes, longer, count, rows, ticker, day),
        #[trigger] bar_on(days, ticker, day),
    ) by {
        lemma_same_source(quotes, kept, longer, count, rows, ticker, day);
    }
}

proof fn lemma_source_row<N>(
    quotes: Seq<TickerQuotes<N>>,
    kept: Seq<Seq<bool>>,
    count: nat,
    rows: nat,
    ticker: Seq<char>,
    day: i32,
)
    requires
        count <= quotes.len(),
        rows > 0 ==> count < quotes.len() && rows <= quotes[count as int].dates@.len(),
    ensures
        source_row(quotes, kept, count, rows, ticker, day) matches Some((at, row)) ==> {
            &&& 0 <= at < quotes.len()
            &&& 0 <= row < quotes[at].dates@.len()
            &&& quotes[at].ticker@ == ticker
            &&& quotes[at].dates@[row] == day
        },
    decreases count, rows,
{
    if rows > 0 {
        lemma_source_row(quotes, kept, count, (rows - 1) as nat, ticker, day);
    } else if count > 0 {
        let before = (count - 1) as nat;
        lemma_source_row(quotes, kept, before, quotes[count - 1].dates@.len(), ticker, day);
    }
}

/// No order looks ahead: the score of every bar is its ticker's signal of an earlier date.
pub proof fn bars_never_look_ahead<N: Number>(
    quotes: Seq<TickerQuotes<N>>,
    signals: Signals<N>,
    days: Seq<TradingDay<N>>,
    ticker: Seq<char>,
    date: i32,
)
    requires
        days_are(quotes, signals, days),
        forall|q: int, i: int, j: int|
            #![trigger quotes[q].dates@[i], quotes[q].dates@[j]]
            0 <= q < quotes.len() && 0 <= i < j < quotes[q].dates@.len() ==> quotes[q].dates@[i]
                < quotes[q].dates@[j],
        bar_on(days, ticker, date) is Some,
    ensures
        exists|earlier: i32|
            earlier < date && #[trigger] signals.score(ticker, earlier) == Some(
                bar_on(days, ticker, date)->0.score,
            ),
{
    let kept = choose|kept: Seq<Seq<bool>>|
        {
            &&& kept.len() == quotes.len()
            &&& forall|q: int|
                0 <= q < quotes.len() ==> rows_kept(quotes[q], signals, #[trigger] kept[q])
            &&& #[trigger] bars_follow(quotes, signals, kept, quotes.len(), 0, days)
        };
    let source = source_row(quotes, kept, quotes.len(), 0, ticker, date);
    assert(bar_matches(quotes, signals, source, bar_on(days, ticker, date)));
    lemma_source_row(quotes, kept, quotes.len(), 0, ticker, date);
    let (at, row) = source->0;
    assert(lagged_score(quotes[at], signals, row) is Some);
    assert(quotes[at].dates@[row - 1] < quotes[at].dates@[row]);
    assert(signals.score(ticker, quotes[at].dates@[row - 1]) is Some);
}

} // verus!
