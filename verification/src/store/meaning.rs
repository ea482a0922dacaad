//! What the store hands out of the data: rows, windows, samples, and batches.
use vstd::prelude::*;

#[allow(unused_imports)]
use crate::batcher::{gathered, StockItem as RowItem};
#[allow(unused_imports)]
use crate::dataset::{item_of, StockItem};
#[allow(unused_imports)]
use crate::history::HistoryView;
#[allow(unused_imports)]
use crate::random::{chosen_indices, is_draw};
#[allow(unused_imports)]
use crate::store::{
    all_wf, every_reward, every_window, every_window_since, filled, has_null, loaded,
    loaded_prices, quotes_of, recent_windows, ticker_of, window_at, window_count, LabeledGroup,
    TickerGroup, TickerQuotes, TickerStore, TickerView, WindowView,
};

verus! {

/// `features` are those of the `steps` rows of `ticker` from `start` on, five to a row.
pub open spec fn shows_rows<T>(
    ticker: TickerView<T>,
    start: int,
    steps: int,
    features: Seq<T>,
) -> bool {
    &&& 0 <= start
    &&& start + steps <= ticker.history.dates.len()
    &&& features.len() == steps * 5
    &&& forall|i: int|
        0 <= i < features.len() ==> #[trigger] features[i] == ticker.history.features[start * 5 + i]
}

/// `window` is the one of `ticker` that covers the `steps` rows from `start` on, dated at the
/// last of them.
pub open spec fn covers<T>(
    ticker: TickerView<T>,
    start: int,
    steps: int,
    window: WindowView<T>,
) -> bool {
    &&& shows_rows(ticker, start, steps, window.features)
    &&& window.ticker == ticker.history.name
    &&& window.date == ticker.history.dates[start + steps - 1]
}

proof fn lemma_covers<T>(ticker: TickerView<T>, start: int, steps: nat)
    requires
        ticker.wf(),
        0 <= start,
        start + steps <= ticker.history.rows(),
    ensures
        covers(ticker, start, steps as int, window_at(ticker, start, steps as int)),
{
    let features = ticker.history.window(start, steps as int);
    assert(0 <= start * 5 <= (start + steps) * 5 <= ticker.history.features.len()
        && (start + steps) * 5 - start * 5 == steps * 5) by (nonlinear_arith)
        requires
            0 <= start,
            0 <= steps,
            start + steps <= ticker.history.dates.len(),
            ticker.history.features.len() == ticker.history.dates.len() * 5,
    ;
}

/// Every window that a backtest reads covers consecutive rows of one ticker, and its reward is
/// that of the window's last row.
pub proof fn backtest_windows_cover_rows<T>(tickers: Seq<TickerView<T>>, steps: nat, w: int)
    requires
        all_wf(tickers),
        steps > 0,
        0 <= w < every_window(tickers, steps).len(),
    ensures
        every_reward(tickers, steps).len() == every_window(tickers, steps).len(),
        exists|t: int, start: int|
            {
                &&& 0 <= t < tickers.len()
                &&& #[trigger] covers(
                    tickers[t],
                    start,
                    steps as int,
                    every_window(tickers, steps)[w],
                )
                &&& every_reward(tickers, steps)[w] == tickers[t].rewards[start + steps - 1]
            },
    decreases tickers.len(),
{
    let shorter = tickers.drop_last();
    let last = tickers.len() - 1;
    let earlier = every_window(shorter, steps);
    assert forall|t: int| 0 <= t < shorter.len() implies (#[trigger] shorter[t]).wf() by {
        assert(tickers[t].wf());
    }
    lemma_reward_count(shorter, steps);
    lemma_reward_count(tickers, steps);
    if w < earlier.len() {
        backtest_windows_cover_rows(shorter, steps, w);
        let (t, start) = choose|t: int, start: int|
            {
                &&& 0 <= t < shorter.len()
                &&& #[trigger] covers(shorter[t], start, steps as int, earlier[w])
                &&& every_reward(shorter, steps)[w] == shorter[t].rewards[start + steps - 1]
            };
        assert(covers(tickers[t], start, steps as int, every_window(tickers, steps)[w]));
    } else {
        let start = w - earlier.len();
        assert(tickers[last].wf());
        lemma_covers(tickers[last], start, steps);
        assert(covers(tickers[last], start, steps as int, every_window(tickers, steps)[w]));
    }
}

proof fn lemma_reward_count<T>(tickers: Seq<TickerView<T>>, steps: nat)
    ensures
        every_reward(tickers, steps).len() == every_window(tickers, steps).len(),
    decreases tickers.len(),
{
    if tickers.len() > 0 {
        lemma_reward_count(tickers.drop_last(), steps);
    }
}

/// A backtest reads every run of so many consecutive rows of every ticker.
pub proof fn every_run_of_rows_is_a_backtest_window<T>(
    tickers: Seq<TickerView<T>>,
    steps: nat,
    t: int,
    start: int,
)
    requires
        all_wf(tickers),
        steps > 0,
        0 <= t < tickers.len(),
        0 <= start,
        start + steps <= tickers[t].history.dates.len(),
    ensures
        exists|w: int|
            0 <= w < every_window(tickers, steps).len() && covers(
                tickers[t],
                start,
                steps as int,
                #[trigger] every_window(tickers, steps)[w],
            ),
    decreases tickers.len(),
{
    let shorter = tickers.drop_last();
    let earlier = every_window(shorter, steps);
    let all = every_window(tickers, steps);
    assert(tickers[t].wf());
    if t < shorter.len() {
        assert forall|i: int| 0 <= i < shorter.len() implies (#[trigger] shorter[i]).wf() by {
            assert(tickers[i].wf());
        }
        every_run_of_rows_is_a_backtest_window(shorter, steps, t, start);
        let w = choose|w: int|
            0 <= w < earlier.len() && covers(
                shorter[t],
                start,
                steps as int,
                #[trigger] earlier[w],
            );
        assert(all[w] == earlier[w]);
    } else {
        lemma_covers(tickers[t], start, steps);
        assert(all[earlier.len() + start] == window_at(tickers[t], start, steps as int));
    }
}

/// `window` covers some `steps` consecutive rows of `ticker`.
spec fn covers_some<T>(ticker: TickerView<T>, steps: int, window: WindowView<T>) -> bool {
    exists|start: int| covers(ticker, start, steps, window)
}

proof fn lemma_recent<T>(
    ticker: TickerView<T>,
    steps: nat,
    cutoff: i32,
    count: nat,
)
    requires
        ticker.wf(),
        steps > 0,
        count + steps <= ticker.history.rows() + 1,
    ensures
        forall|w: int|
            0 <= w < recent_windows(ticker, steps, cutoff, count).len() ==> (
            #[trigger] recent_windows(ticker, steps, cutoff, count)[w]).date >= cutoff,
        forall|w: int|
            0 <= w < recent_windows(ticker, steps, cutoff, count).len() ==> covers_some(
                ticker,
                steps as int,
                #[trigger] recent_windows(ticker, steps, cutoff, count)[w],
            ),
        forall|start: int|
            0 <= start < count && ticker.history.dates[start + steps - 1] >= cutoff
                ==> recent_windows(ticker, steps, cutoff, count).contains(
                #[trigger] window_at(ticker, start, steps as int),
            ),
    decreases count,
{
    if count > 0 {
        let before = (count - 1) as nat;
        lemma_recent(ticker, steps, cutoff, before);
        let (fewer, all) = (
            recent_windows(ticker, steps, cutoff, before),
            recent_windows(ticker, steps, cutoff, count),
        );
        lemma_covers(ticker, count - 1, steps);
        assert forall|w: int| 0 <= w < all.len() implies covers_some(
            ticker,
            steps as int,
            #[trigger] all[w],
        ) by {
            if w < fewer.len() {
                assert(all[w] == fewer[w]);
            } else {
                assert(covers(ticker, count - 1, steps as int, all[w]));
            }
        }
        assert forall|w: int| 0 <= w < all.len() implies (#[trigger] all[w]).date >= cutoff by {
            if w < fewer.len() {
                assert(all[w] == fewer[w]);
            }
        }
        assert forall|start: int|
            0 <= start < count && ticker.history.dates[start + steps - 1]
                >= cutoff implies all.contains(
            #[trigger] window_at(ticker, start, steps as int),
        ) by {
            let window = window_at(ticker, start, steps as int);
            if start < before {
                let w = choose|w: int| 0 <= w < fewer.len() && fewer[w] == window;
                assert(all[w] == window);
            } else {
                assert(all[all.len() - 1] == window);
            }
        }
    }
}

/// Every window since a cutoff covers consecutive rows of one ticker and is dated on or after
/// the cutoff.
pub proof fn windows_since_a_cutoff_are_recent<T>(
    tickers: Seq<TickerView<T>>,
    steps: nat,
    cutoff: i32,
    w: int,
)
    requires
        all_wf(tickers),
        steps > 0,
        0 <= w < every_window_since(tickers, steps, cutoff).len(),
    ensures
        every_window_since(tickers, steps, cutoff)[w].date >= cutoff,
        exists|t: int, start: int|
            0 <= t < tickers.len() && #[trigger] covers(
                tickers[t],
                start,
                steps as int,
                every_window_since(tickers, steps, cutoff)[w],
            ),
    decreases tickers.len(),
{
    let shorter = tickers.drop_last();
    let last = tickers.len() - 1;
    let earlier = every_window_since(shorter, steps, cutoff);
    let all = every_window_since(tickers, steps, cutoff);
    assert forall|t: int| 0 <= t < shorter.len() implies (#[trigger] shorter[t]).wf() by {
        assert(tickers[t].wf());
    }
    if w < earlier.len() {
        windows_since_a_cutoff_are_recent(shorter, steps, cutoff, w);
        let (t, start) = choose|t: int, start: int|
            0 <= t < shorter.len() && #[trigger] covers(
                shorter[t],
                start,
                steps as int,
                earlier[w],
            );
        assert(covers(tickers[t], start, steps as int, all[w]));
    } else {
        assert(tickers[last].wf());
        let count = window_count(tickers[last], steps);
        let recent = recent_windows(tickers[last], steps, cutoff, count);
        if count > 0 {
            lemma_recent(tickers[last], steps, cutoff, count);
        }
        assert(all[w] == recent[w - earlier.len()]);
        let window = recent[w - earlier.len()];
        assert(covers_some(tickers[last], steps as int, window));
        let start = choose|start: int| covers(tickers[last], start, steps as int, window);
        assert(covers(tickers[last], start, steps as int, all[w]));
    }
}

/// No window that is dated on or after a cutoff is left out of those since the cutoff.
pub proof fn no_recent_window_is_left_out<T>(
    tickers: Seq<TickerView<T>>,
    steps: nat,
    cutoff: i32,
    t: int,
    start: int,
)
    requires
        all_wf(tickers),
        steps > 0,
        0 <= t < tickers.len(),
        0 <= start,
        start + steps <= tickers[t].history.dates.len(),
        tickers[t].history.dates[start + steps - 1] >= cutoff,
    ensures
        exists|w: int|
            0 <= w < every_window_since(tickers, steps, cutoff).len() && covers(
                tickers[t],
                start,
                steps as int,
                #[trigger] every_window_since(tickers, steps, cutoff)[w],
            ),
    decreases tickers.len(),
{
    let shorter = tickers.drop_last();
    let earlier = every_window_since(shorter, steps, cutoff);
    let all = every_window_since(tickers, steps, cutoff);
    assert(tickers[t].wf());
    if t < shorter.len() {
        assert forall|i: int| 0 <= i < shorter.len() implies (#[trigger] shorter[i]).wf() by {
            assert(tickers[i].wf());
        }
        no_recent_window_is_left_out(shorter, steps, cutoff, t, start);
        let w = choose|w: int|
            0 <= w < earlier.len() && covers(
                shorter[t],
                start,
                steps as int,
                #[trigger] earlier[w],
            );
        assert(all[w] == earlier[w]);
    } else {
        let count = window_count(tickers[t], steps);
        let recent = recent_windows(tickers[t], steps, cutoff, count);
        let window = window_at(tickers[t], start, steps as int);
        lemma_recent(tickers[t], steps, cutoff, count);
        lemma_covers(tickers[t], start, steps);
        assert(recent.contains(window));
        let w = choose|w: int| 0 <= w < recent.len() && recent[w] == window;
        assert(all[earlier.len() + w] == window);
    }
}

/// A sample shows the rows of its window, and carries the label and the reward of the last of
/// them and the industry of its ticker.
pub proof fn samples_are_labeled_on_their_last_day<T>(
    tickers: Seq<TickerView<T>>,
    window: (u32, u32),
    steps: nat,
    item: StockItem<T>,
)
    requires
        all_wf(tickers),
        steps > 0,
        window.0 < tickers.len(),
        window.1 + steps <= tickers[window.0 as int].history.rows(),
        item_of(tickers, window, steps, item),
    ensures
        shows_rows(
            tickers[window.0 as int],
            window.1 as int,
            steps as int,
            item.technical@,
        ),
        item.label == tickers[window.0 as int].history.labels[window.1 + steps - 1],
        item.reward == tickers[window.0 as int].rewards[window.1 + steps - 1],
        item.industry == tickers[window.0 as int].industry,
{
    assert(tickers[window.0 as int].wf());
    lemma_covers(tickers[window.0 as int], window.1 as int, steps);
}

/// A batch holds its windows one after the other, each in the rows it starts at.
pub proof fn batches_hold_their_windows_in_order<T>(
    features: Seq<T>,
    rows: nat,
    items: Seq<RowItem>,
    steps: nat,
    b: int,
    i: int,
)
    requires
        features.len() == rows * 5,
        forall|b: int|
            0 <= b < items.len() ==> (#[trigger] items[b]).start + steps <= rows,
        0 <= b < items.len(),
        0 <= i < steps * 5,
    ensures
        gathered(features, items, steps as int).len() == items.len() * (steps * 5),
        0 <= b * (steps * 5) + i < gathered(features, items, steps as int).len(),
        gathered(features, items, steps as int)[b * (steps * 5) + i]
            == features[items[b].start * 5 + i],
    decreases items.len(),
{
    let shorter = items.drop_last();
    let last = items.len() - 1;
    let width = (steps * 5) as int;
    let (fewer, all) = (
        gathered(features, shorter, steps as int),
        gathered(features, items, steps as int),
    );
    assert forall|b: int| 0 <= b < shorter.len() implies (#[trigger] shorter[b]).start + steps
        <= rows by {
        assert(items[b].start + steps <= rows);
    }
    lemma_gathered_length(features, rows, shorter, steps);
    lemma_gathered_length(features, rows, items, steps);
    assert(items[last].start + steps <= rows);
    let start = items[last].start as int;
    assert(0 <= start * 5 && (start + steps) * 5 <= features.len() && (start + steps) * 5 - start
        * 5 == width) by (nonlinear_arith)
        requires
            0 <= start,
            start + steps <= rows,
            features.len() == rows * 5,
            width == steps * 5,
    ;
    if b < last {
        batches_hold_their_windows_in_order(features, rows, shorter, steps, b, i);
    }
    assert(0 <= b * width + i < items.len() * width) by (nonlinear_arith)
        requires
            0 <= b < items.len(),
            0 <= i < width,
    ;
    if b == last {
        assert(b * width == fewer.len());
    }
}

proof fn lemma_gathered_length<T>(features: Seq<T>, rows: nat, items: Seq<RowItem>, steps: nat)
    requires
        features.len() == rows * 5,
        forall|b: int|
            0 <= b < items.len() ==> (#[trigger] items[b]).start + steps <= rows,
    ensures
        gathered(features, items, steps as int).len() == items.len() * (steps * 5),
    decreases items.len(),
{
    if items.len() > 0 {
        let shorter = items.drop_last();
        let last = items.len() - 1;
        assert forall|b: int| 0 <= b < shorter.len() implies (#[trigger] shorter[b]).start + steps
            <= rows by {
            assert(items[b].start + steps <= rows);
        }
        lemma_gathered_length(features, rows, shorter, steps);
        assert(items[last].start + steps <= rows);
        let start = items[last].start as int;
        assert(0 <= start * 5 && (start + steps) * 5 <= features.len() && (start + steps) * 5
            - start * 5 == steps * 5) by (nonlinear_arith)
            requires
                0 <= start,
                start + steps <= rows,
                features.len() == rows * 5,
        ;
        let (n, w) = (shorter.len() as int, (steps * 5) as int);
        assert((n + 1) * w == n * w + w) by (nonlinear_arith);
    } else {
        let w = (steps * 5) as int;
        assert(0 * w == 0);
    }
}

/// `price` is what the column has, or what stands for a missing price.
pub open spec fn priced_as<T>(given: Option<T>, missing: Option<T>, price: T) -> bool {
    match given {
        Some(found) => price == found,
        None => missing == Some(price),
    }
}

/// `ticker` holds the first `rows` rows of `group`, column by column.
pub open spec fn holds_rows<T>(
    group: TickerGroup<T>,
    rows: int,
    missing: Option<T>,
    ticker: TickerView<T>,
) -> bool {
    &&& ticker.history.name == group.name@
    &&& ticker.history.dates.len() == rows
    &&& ticker.history.features.len() == rows * 5
    &&& ticker.open.len() == rows
    &&& ticker.high.len() == rows
    &&& ticker.low.len() == rows
    &&& ticker.close.len() == rows
    &&& forall|r: int|
        0 <= r < rows ==> #[trigger] ticker.history.dates[r] == group.dates@[r]
    &&& forall|i: int|
        0 <= i < rows * 5 ==> #[trigger] ticker.history.features[i] == group.features@[i]
    &&& forall|r: int|
        0 <= r < rows ==> priced_as(group.open@[r], missing, #[trigger] ticker.open[r])
    &&& forall|r: int|
        0 <= r < rows ==> priced_as(group.high@[r], missing, #[trigger] ticker.high[r])
    &&& forall|r: int|
        0 <= r < rows ==> priced_as(group.low@[r], missing, #[trigger] ticker.low[r])
    &&& forall|r: int|
        0 <= r < rows ==> priced_as(group.close@[r], missing, #[trigger] ticker.close[r])
}

/// Row `r` of the group lacks one of its four prices.
pub open spec fn lacks_a_price<T>(group: TickerGroup<T>, r: int) -> bool {
    group.open@[r] is None || group.high@[r] is None || group.low@[r] is None || group.close@[r]
        is None
}

proof fn lemma_filled<T>(values: Seq<Option<T>>, rows: nat, missing: Option<T>)
    ensures
        filled(values, rows, missing) is None <==> missing is None && exists|r: int|
            0 <= r < rows && (#[trigger] values[r]) is None,
        filled(values, rows, missing) matches Some(column) ==> column.len() == rows && forall|
            r: int,
        |
            0 <= r < rows ==> priced_as(values[r], missing, #[trigger] column[r]),
{
    if filled(values, rows, missing) is Some && missing is None {
        let column = filled(values, rows, missing)->0;
        assert forall|r: int| 0 <= r < rows implies priced_as(
            values[r],
            missing,
            #[trigger] column[r],
        ) by {
            assert(values[r] is Some);
        }
    }
}

proof fn lemma_ticker_of<T>(
    group: TickerGroup<T>,
    rows: nat,
    labels: Seq<u8>,
    rewards: Seq<T>,
    missing: Option<T>,
)
    requires
        group.wf(),
        rows <= group.dates@.len(),
    ensures
        ticker_of(group, rows, labels, rewards, missing) is None <==> missing is None && exists|
            r: int,
        |
            0 <= r < rows && #[trigger] lacks_a_price(group, r),
        ticker_of(group, rows, labels, rewards, missing) matches Some(ticker) ==> holds_rows(
            group,
            rows as int,
            missing,
            ticker,
        ) && ticker.history.labels == labels && ticker.rewards == rewards,
{
    lemma_filled(group.open@, rows, missing);
    lemma_filled(group.high@, rows, missing);
    lemma_filled(group.low@, rows, missing);
    lemma_filled(group.close@, rows, missing);
    if exists|r: int| 0 <= r < rows && #[trigger] lacks_a_price(group, r) {
        let r = choose|r: int| 0 <= r < rows && #[trigger] lacks_a_price(group, r);
        assert(group.open@[r] is None || group.high@[r] is None || group.low@[r] is None
            || group.close@[r] is None);
    }
    if missing is None && ticker_of(group, rows, labels, rewards, missing) is None {
        let r = if exists|r: int| 0 <= r < rows && (#[trigger] group.open@[r]) is None {
            choose|r: int| 0 <= r < rows && (#[trigger] group.open@[r]) is None
        } else if exists|r: int| 0 <= r < rows && (#[trigger] group.high@[r]) is None {
            choose|r: int| 0 <= r < rows && (#[trigger] group.high@[r]) is None
        } else if exists|r: int| 0 <= r < rows && (#[trigger] group.low@[r]) is None {
            choose|r: int| 0 <= r < rows && (#[trigger] group.low@[r]) is None
        } else {
            choose|r: int| 0 <= r < rows && (#[trigger] group.close@[r]) is None
        };
        assert(lacks_a_price(group, r));
    }
    assert(rows * 5 <= group.features@.len()) by (nonlinear_arith)
        requires
            rows <= group.dates@.len(),
            group.features@.len() == group.dates@.len() * 5,
    ;
}

/// The group lacks a price among the rows that are kept.
pub open spec fn keeps_a_gap<T>(labeled: LabeledGroup<T>, horizon: nat, r: int) -> bool {
    0 <= r < labeled.group.dates@.len() - horizon && lacks_a_price(labeled.group, r)
}

/// `ticker` holds all rows of the group but the last `horizon`, its labels, and its rewards.
#[verifier::opaque]
pub open spec fn comes_from<T>(
    labeled: LabeledGroup<T>,
    horizon: nat,
    missing: Option<T>,
    ticker: TickerView<T>,
) -> bool {
    let rows = labeled.group.dates@.len() - horizon;
    &&& rows > 0
    &&& holds_rows(labeled.group, rows, missing, ticker)
    &&& ticker.history.labels == labeled.labels@
    &&& ticker.rewards == labeled.rewards@
}

/// `ticker` comes from one of the groups.
pub open spec fn comes_from_some<T>(
    groups: Seq<LabeledGroup<T>>,
    horizon: nat,
    missing: Option<T>,
    ticker: TickerView<T>,
) -> bool {
    exists|g: int|
        0 <= g < groups.len() && comes_from(#[trigger] groups[g], horizon, missing, ticker)
}

/// The ticker of a group's first rows, as far as the loader's induction needs to know it.
spec fn group_ticker<T>(labeled: LabeledGroup<T>, horizon: nat, missing: Option<T>) -> Option<
    TickerView<T>,
> {
    ticker_of(
        labeled.group,
        (labeled.group.dates@.len() - horizon) as nat,
        labeled.labels@,
        labeled.rewards@,
        missing,
    )
}

proof fn lemma_group_ticker<T>(labeled: LabeledGroup<T>, horizon: nat, missing: Option<T>)
    requires
        labeled.wf(horizon),
        labeled.group.dates@.len() > horizon,
    ensures
        group_ticker(labeled, horizon, missing) is None <==> missing is None && exists|r: int|
            #[trigger] keeps_a_gap(labeled, horizon, r),
        group_ticker(labeled, horizon, missing) matches Some(ticker) ==> comes_from(
            labeled,
            horizon,
            missing,
            ticker,
        ),
{
    reveal(comes_from);
    let rows = (labeled.group.dates@.len() - horizon) as nat;
    lemma_ticker_of(labeled.group, rows, labeled.labels@, labeled.rewards@, missing);
    if group_ticker(labeled, horizon, missing) is None {
        let r = choose|r: int| 0 <= r < rows && #[trigger] lacks_a_price(labeled.group, r);
        assert(keeps_a_gap(labeled, horizon, r));
    }
    if exists|r: int| #[trigger] keeps_a_gap(labeled, horizon, r) {
        let r = choose|r: int| #[trigger] keeps_a_gap(labeled, horizon, r);
        assert(lacks_a_price(labeled.group, r));
    }
}

/// Loading fails if and only if nothing stands for a missing price and a row that is kept lacks
/// one.
pub proof fn loading_fails_on_a_gap_alone<T>(
    groups: Seq<LabeledGroup<T>>,
    horizon: nat,
    missing: Option<T>,
)
    requires
        forall|g: int| 0 <= g < groups.len() ==> (#[trigger] groups[g]).wf(horizon),
    ensures
        loaded(groups, horizon, missing) is None <==> missing is None && exists|g: int, r: int|
            0 <= g < groups.len() && #[trigger] keeps_a_gap(groups[g], horizon, r),
    decreases groups.len(),
{
    if groups.len() > 0 {
        let shorter = groups.drop_last();
        let last = groups.len() - 1;
        assert forall|g: int| 0 <= g < shorter.len() implies (#[trigger] shorter[g]).wf(
            horizon,
        ) by {
            assert(groups[g].wf(horizon));
        }
        loading_fails_on_a_gap_alone(shorter, horizon, missing);
        assert(groups[last].wf(horizon));
        if groups[last].group.dates@.len() > horizon {
            lemma_group_ticker(groups[last], horizon, missing);
        }
        let before = loaded(shorter, horizon, missing);
        if before is None {
            let (g, r) = choose|g: int, r: int|
                0 <= g < shorter.len() && #[trigger] keeps_a_gap(shorter[g], horizon, r);
            assert(keeps_a_gap(groups[g], horizon, r));
        } else if loaded(groups, horizon, missing) is None {
            let r = choose|r: int| #[trigger] keeps_a_gap(groups[last], horizon, r);
            assert(keeps_a_gap(groups[last], horizon, r));
        } else if missing is None {
            assert forall|g: int, r: int| 0 <= g < groups.len() implies !(#[trigger] keeps_a_gap(
                groups[g],
                horizon,
                r,
            )) by {
                if g < last {
                    assert(!keeps_a_gap(shorter[g], horizon, r));
                }
            }
        }
    }
}

/// Each group with more rows than the horizon becomes a ticker of all its rows but the last
/// `horizon`, with its labels and rewards, and there are no other tickers.
pub proof fn loading_keeps_all_rows_but_the_horizon<T>(
    groups: Seq<LabeledGroup<T>>,
    horizon: nat,
    missing: Option<T>,
    tickers: Seq<TickerView<T>>,
)
    requires
        forall|g: int| 0 <= g < groups.len() ==> (#[trigger] groups[g]).wf(horizon),
        loaded(groups, horizon, missing) == Some(tickers),
    ensures
        forall|k: int|
            0 <= k < tickers.len() ==> comes_from_some(
                groups,
                horizon,
                missing,
                #[trigger] tickers[k],
            ),
        forall|g: int|
            0 <= g < groups.len() && (#[trigger] groups[g]).group.dates@.len() > horizon
                ==> becomes_one(groups[g], horizon, missing, tickers),
        tickers.len() <= groups.len(),
    decreases groups.len(),
{
    if groups.len() > 0 {
        let shorter = groups.drop_last();
        let last = groups.len() - 1;
        assert forall|g: int| 0 <= g < shorter.len() implies (#[trigger] shorter[g]).wf(
            horizon,
        ) by {
            assert(groups[g].wf(horizon));
        }
        let fewer = loaded(shorter, horizon, missing)->0;
        loading_keeps_all_rows_but_the_horizon(shorter, horizon, missing, fewer);
        assert(groups[last].wf(horizon));
        let grows = groups[last].group.dates@.len() > horizon;
        if grows {
            lemma_group_ticker(groups[last], horizon, missing);
            assert(tickers == fewer.push(group_ticker(groups[last], horizon, missing)->0));
        } else {
            assert(tickers == fewer);
        }
        assert forall|k: int| 0 <= k < tickers.len() implies comes_from_some(
            groups,
            horizon,
            missing,
            #[trigger] tickers[k],
        ) by {
            if k < fewer.len() {
                assert(tickers[k] == fewer[k]);
                lemma_still_comes(groups, horizon, missing, fewer[k]);
            } else {
                assert(comes_from(groups[last], horizon, missing, tickers[k]));
            }
        }
        assert forall|g: int|
            0 <= g < groups.len() && (#[trigger] groups[g]).group.dates@.len()
                > horizon implies becomes_one(groups[g], horizon, missing, tickers) by {
            if g < last {
                assert(becomes_one(shorter[g], horizon, missing, fewer));
                lemma_still_one(groups[g], horizon, missing, fewer, tickers);
            } else {
                assert(comes_from(groups[last], horizon, missing, tickers[fewer.len() as int]));
            }
        }
    }
}

/// One of the tickers comes from the group.
pub open spec fn becomes_one<T>(
    labeled: LabeledGroup<T>,
    horizon: nat,
    missing: Option<T>,
    tickers: Seq<TickerView<T>>,
) -> bool {
    exists|k: int|
        0 <= k < tickers.len() && comes_from(labeled, horizon, missing, #[trigger] tickers[k])
}

proof fn lemma_still_comes<T>(
    groups: Seq<LabeledGroup<T>>,
    horizon: nat,
    missing: Option<T>,
    ticker: TickerView<T>,
)
    requires
        groups.len() > 0,
        comes_from_some(groups.drop_last(), horizon, missing, ticker),
    ensures
        comes_from_some(groups, horizon, missing, ticker),
{
    let shorter = groups.drop_last();
    let g = choose|g: int|
        0 <= g < shorter.len() && comes_from(#[trigger] shorter[g], horizon, missing, ticker);
    assert(comes_from(groups[g], horizon, missing, ticker));
}

proof fn lemma_still_one<T>(
    labeled: LabeledGroup<T>,
    horizon: nat,
    missing: Option<T>,
    fewer: Seq<TickerView<T>>,
    tickers: Seq<TickerView<T>>,
)
    requires
        becomes_one(labeled, horizon, missing, fewer),
        fewer.is_prefix_of(tickers),
    ensures
        becomes_one(labeled, horizon, missing, tickers),
{
    let k = choose|k: int|
        0 <= k < fewer.len() && comes_from(labeled, horizon, missing, #[trigger] fewer[k]);
    assert(tickers[k] == fewer[k]);
}

/// A ticker of the price loader holds every row of its group.
#[verifier::opaque]
pub open spec fn holds_whole<T>(group: TickerGroup<T>, ticker: TickerView<T>) -> bool {
    holds_rows(group, group.dates@.len() as int, None, ticker)
}

proof fn lemma_whole_ticker<T>(group: TickerGroup<T>, unread: T)
    requires
        group.wf(),
    ensures
        ({
            let height = group.dates@.len();
            let ticker = ticker_of(
                group,
                height,
                Seq::new(height, |i: int| 0u8),
                Seq::new(height, |i: int| unread),
                None,
            );
            &&& ticker is None <==> exists|r: int| 0 <= r < height && #[trigger] lacks_a_price(group, r)
            &&& ticker is Some ==> holds_whole(group, ticker->0)
        }),
{
    reveal(holds_whole);
    let height = group.dates@.len();
    lemma_ticker_of(
        group,
        height,
        Seq::new(height, |i: int| 0u8),
        Seq::new(height, |i: int| unread),
        None,
    );
}

/// Loading prices fails if and only if some row lacks one. Otherwise every group that has a row
/// becomes a ticker of all its rows, and there are no other tickers.
pub proof fn price_loading_keeps_every_row<T>(groups: Seq<TickerGroup<T>>, unread: T)
    requires
        forall|g: int| 0 <= g < groups.len() ==> (#[trigger] groups[g]).wf(),
    ensures
        loaded_prices(groups, unread) is None <==> exists|g: int| #[trigger]
            has_a_gap(groups, g),
        loaded_prices(groups, unread) matches Some(tickers) ==> {
            &&& forall|k: int|
                0 <= k < tickers.len() ==> is_some_group(groups, #[trigger] tickers[k])
            &&& forall|g: int|
                0 <= g < groups.len() && (#[trigger] groups[g]).dates@.len() > 0
                    ==> stands_among(groups[g], tickers)
        },
    decreases groups.len(),
{
    if groups.len() > 0 {
        let shorter = groups.drop_last();
        let last = groups.len() - 1;
        let group = groups[last];
        let height = group.dates@.len();
        assert forall|g: int| 0 <= g < shorter.len() implies (#[trigger] shorter[g]).wf() by {
            assert(groups[g].wf());
        }
        price_loading_keeps_every_row(shorter, unread);
        assert(group.wf());
        lemma_whole_ticker(group, unread);
        let before = loaded_prices(shorter, unread);
        let after = loaded_prices(groups, unread);
        if before is None {
            let g = choose|g: int| #[trigger] has_a_gap(shorter, g);
            let r = choose|r: int|
                0 <= r < shorter[g].dates@.len() && #[trigger] lacks_a_price(shorter[g], r);
            assert(lacks_a_price(groups[g], r));
            assert(has_a_gap(groups, g));
        } else if after is None {
            let r = choose|r: int| 0 <= r < height && #[trigger] lacks_a_price(group, r);
            assert(lacks_a_price(groups[last], r));
            assert(has_a_gap(groups, last));
        } else {
            let (fewer, all) = (before->0, after->0);
            assert(fewer.is_prefix_of(all));
            assert forall|g: int| !(#[trigger] has_a_gap(groups, g)) by {
                if has_a_gap(groups, g) {
                    let r = choose|r: int|
                        0 <= r < groups[g].dates@.len() && #[trigger] lacks_a_price(groups[g], r);
                    assert(lacks_a_price(groups[g], r));
                    if g < last {
                        assert(lacks_a_price(shorter[g], r));
                        assert(has_a_gap(shorter, g));
                    }
                }
            }
            assert forall|k: int| 0 <= k < all.len() implies is_some_group(
                groups,
                #[trigger] all[k],
            ) by {
                if k < fewer.len() {
                    assert(all[k] == fewer[k]);
                    let g = choose|g: int|
                        0 <= g < shorter.len() && holds_whole(#[trigger] shorter[g], fewer[k]);
                    assert(holds_whole(groups[g], all[k]));
                } else {
                    assert(holds_whole(groups[last], all[k]));
                }
            }
            assert forall|g: int|
                0 <= g < groups.len() && (#[trigger] groups[g]).dates@.len()
                    > 0 implies stands_among(groups[g], all) by {
                if g < last {
                    assert(stands_among(shorter[g], fewer));
                    let k = choose|k: int|
                        0 <= k < fewer.len() && holds_whole(shorter[g], #[trigger] fewer[k]);
                    assert(all[k] == fewer[k]);
                } else {
                    assert(holds_whole(groups[last], all[fewer.len() as int]));
                }
            }
        }
    }
}

/// Group `g` has a row that lacks a price.
pub open spec fn has_a_gap<T>(groups: Seq<TickerGroup<T>>, g: int) -> bool {
    0 <= g < groups.len() && exists|r: int|
        0 <= r < groups[g].dates@.len() && #[trigger] lacks_a_price(groups[g], r)
}

/// `ticker` holds every row of one of the groups.
pub open spec fn is_some_group<T>(groups: Seq<TickerGroup<T>>, ticker: TickerView<T>) -> bool {
    exists|g: int| 0 <= g < groups.len() && holds_whole(#[trigger] groups[g], ticker)
}

/// One of the tickers holds every row of the group.
pub open spec fn stands_among<T>(group: TickerGroup<T>, tickers: Seq<TickerView<T>>) -> bool {
    exists|k: int| 0 <= k < tickers.len() && holds_whole(group, #[trigger] tickers[k])
}

/// The quotes of a ticker show it row by row under its name: each date with that row's open,
/// high, low, and close.
pub proof fn quotes_show_each_row<T: Copy>(
    store: TickerStore<T>,
    quotes: Vec<TickerQuotes<T>>,
    t: int,
    r: int,
)
    requires
        all_wf(store@),
        call_ensures(TickerStore::<T>::quotes, (&store,), quotes),
        0 <= t < store@.len(),
        0 <= r < store@[t].history.dates.len(),
    ensures
        quotes@.len() == store@.len(),
        quotes@[t].ticker@ == store@[t].history.name,
        quotes@[t].dates@.len() == store@[t].history.dates.len(),
        quotes@[t].dates@[r] == store@[t].history.dates[r],
        quotes@[t].open@[r] == store@[t].open[r],
        quotes@[t].high@[r] == store@[t].high[r],
        quotes@[t].low@[r] == store@[t].low[r],
        quotes@[t].close@[r] == store@[t].close[r],
{
    assert(quotes_of(store@[t], quotes@[t]));
}

/// A sample keeps as many tickers as asked for, or all if there are no more: each is one of the
/// store's, and no one comes twice.
pub proof fn samples_keep_so_many_tickers<T: Copy>(
    store: TickerStore<T>,
    count: usize,
    seed: u64,
    sample: TickerStore<T>,
)
    requires
        call_ensures(TickerStore::<T>::sample_tickers, (store, count, seed), sample),
    ensures
        sample.n_industries == store.n_industries,
        count >= store@.len() ==> sample@ == store@,
        count < store@.len() ==> sample@.len() == count && exists|places: Seq<int>| #[trigger]
            places.no_duplicates() && places.len() == count && forall|i: int|
                0 <= i < count ==> 0 <= #[trigger] places[i] < store@.len() && sample@[i]
                    == store@[places[i]],
{
    if count < store@.len() {
        let drawn = chosen_indices(usize::BITS, seed, store@.len(), count as nat);
        assert(is_draw(drawn, store@.len(), count as nat));
        let places = Seq::new(count as nat, |i: int| drawn[i] as int);
        assert(places.no_duplicates());
        assert forall|i: int| 0 <= i < count implies 0 <= #[trigger] places[i] < store@.len()
            && sample@[i] == store@[places[i]] by {
            assert(drawn[i] < store@.len());
        }
    }
}

} // verus!
