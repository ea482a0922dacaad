//! Backend-free store of every ticker's flattened history. It owns the loaded data and the
//! split and subset transforms, but knows nothing about tensors or devices.
use vstd::prelude::*;

use crate::history::{
    copy_all, copy_range, count_before, enumerate_windows, later, History, FEATURES,
};
#[allow(unused_imports)]
use crate::history::{
    ascending, latest, pool_fits, rows_before, rows_before_is_the_cut, split_halves_rejoin,
    window_pool, HistoryView,
};
use crate::random::choose_indices;
#[allow(unused_imports)]
use crate::random::{chosen_indices, is_draw};

pub mod meaning;

verus! {

/// Why a store could not be made.
#[derive(Clone, Copy, Debug, PartialEq, Eq, Structural)]
pub enum StoreError {
    /// A price is missing.
    NullPrice,
    /// A train/valid split left one side without tickers.
    EmptySplit,
}

impl StoreError {
    /// The message for the user.
    pub fn message(&self) -> (text: &'static str)
        ensures
            text@ == (match *self {
                StoreError::NullPrice => "price column must not contain nulls"@,
                StoreError::EmptySplit =>
                    "train/valid split left one side empty; check cutoff and steps"@,
            }),
    {
        match self {
            StoreError::NullPrice => "price column must not contain nulls",
            StoreError::EmptySplit => {
                "train/valid split left one side empty; check cutoff and steps"
            },
        }
    }
}

/// One ticker's columns as they come out of the data file, in date order. A price may be
/// missing; labels and rewards stop short of the rows that have no full forward window.
pub struct TickerGroup<T> {
    pub name: String,
    pub dates: Vec<i32>,
    /// Row-major features, five per row.
    pub features: Vec<T>,
    pub open: Vec<Option<T>>,
    pub high: Vec<Option<T>>,
    pub low: Vec<Option<T>>,
    pub close: Vec<Option<T>>,
}

impl<T> TickerGroup<T> {
    /// The columns have one entry per row, and the dates ascend.
    pub open spec fn wf(&self) -> bool {
        &&& self.features@.len() == self.dates@.len() * FEATURES
        &&& self.open@.len() == self.dates@.len()
        &&& self.high@.len() == self.dates@.len()
        &&& self.low@.len() == self.dates@.len()
        &&& self.close@.len() == self.dates@.len()
        &&& ascending(self.dates@)
    }
}

/// A group with the outcome of each row that has a full forward window.
pub struct LabeledGroup<T> {
    pub group: TickerGroup<T>,
    /// Action class per labeled row.
    pub labels: Vec<u8>,
    /// Signed realized return per labeled row.
    pub rewards: Vec<T>,
}

impl<T> LabeledGroup<T> {
    /// The group is well-formed and its last `horizon` rows are the ones without labels.
    pub open spec fn wf(&self, horizon: nat) -> bool {
        &&& self.group.wf()
        &&& self.group.dates@.len() > horizon ==> self.labels@.len() == self.group.dates@.len()
            - horizon && self.rewards@.len() == self.group.dates@.len() - horizon
    }
}

/// One ticker's history with the rewards and the raw prices, untouched by the feature
/// pipeline. The backtest fills buys at `low`, sells at `high`, marks at `close`, and uses
/// `open` for pessimistic fills.
pub struct Ticker<T> {
    pub history: History<T>,
    /// Signed realized return of each row's barrier outcome, one per row.
    pub rewards: Vec<T>,
    pub open: Vec<T>,
    pub high: Vec<T>,
    pub low: Vec<T>,
    pub close: Vec<T>,
    /// Resolved industry bucket; 0 when no industries are attached.
    pub industry: usize,
}

/// A ticker as plain sequences.
#[verifier::ext_equal]
pub struct TickerView<T> {
    pub history: HistoryView<T>,
    pub rewards: Seq<T>,
    pub open: Seq<T>,
    pub high: Seq<T>,
    pub low: Seq<T>,
    pub close: Seq<T>,
    pub industry: usize,
}

impl<T> View for Ticker<T> {
    type V = TickerView<T>;

    open spec fn view(&self) -> TickerView<T> {
        TickerView {
            history: self.history@,
            rewards: self.rewards@,
            open: self.open@,
            high: self.high@,
            low: self.low@,
            close: self.close@,
            industry: self.industry,
        }
    }
}

impl<T> TickerView<T> {
    /// Every buffer has one entry per row, and the dates ascend.
    pub open spec fn wf(self) -> bool {
        &&& self.history.wf()
        &&& self.rewards.len() == self.history.rows()
        &&& self.open.len() == self.history.rows()
        &&& self.high.len() == self.history.rows()
        &&& self.low.len() == self.history.rows()
        &&& self.close.len() == self.history.rows()
    }

    /// The rows before `at`.
    pub open spec fn head(self, at: int) -> TickerView<T> {
        TickerView {
            history: self.history.head(at),
            rewards: self.rewards.take(at),
            open: self.open.take(at),
            high: self.high.take(at),
            low: self.low.take(at),
            close: self.close.take(at),
            industry: self.industry,
        }
    }

    /// The rows from `at` on.
    pub open spec fn tail(self, at: int) -> TickerView<T> {
        TickerView {
            history: self.history.tail(at),
            rewards: self.rewards.skip(at),
            open: self.open.skip(at),
            high: self.high.skip(at),
            low: self.low.skip(at),
            close: self.close.skip(at),
            industry: self.industry,
        }
    }
}

impl<T: Copy> Ticker<T> {
    /// Number of rows.
    pub fn rows(&self) -> (rows: usize)
        ensures
            rows == self@.history.rows(),
    {
        self.history.rows()
    }

    /// Split into rows `[0, at)` and `[at, rows)`, keeping every buffer aligned.
    pub fn split_at(&self, at: usize) -> (halves: (Ticker<T>, Ticker<T>))
        requires
            self@.wf(),
            at <= self@.history.rows(),
        ensures
            halves.0@ == self@.head(at as int),
            halves.1@ == self@.tail(at as int),
    {
        let rows = self.rows();
        let (history_left, history_right) = self.history.split_at(at);
        let left = Ticker {
            history: history_left,
            rewards: copy_range(&self.rewards, 0, at),
            open: copy_range(&self.open, 0, at),
            high: copy_range(&self.high, 0, at),
            low: copy_range(&self.low, 0, at),
            close: copy_range(&self.close, 0, at),
            industry: self.industry,
        };
        let right = Ticker {
            history: history_right,
            rewards: copy_range(&self.rewards, at, rows),
            open: copy_range(&self.open, at, rows),
            high: copy_range(&self.high, at, rows),
            low: copy_range(&self.low, at, rows),
            close: copy_range(&self.close, at, rows),
            industry: self.industry,
        };
        assert(left@ =~= self@.head(at as int));
        assert(right@ =~= self@.tail(at as int));
        (left, right)
    }

    /// A copy of the whole ticker.
    pub fn duplicate(&self) -> (copy: Ticker<T>)
        ensures
            copy@ == self@,
    {
        Ticker {
            history: self.history.duplicate(),
            rewards: copy_all(&self.rewards),
            open: copy_all(&self.open),
            high: copy_all(&self.high),
            low: copy_all(&self.low),
            close: copy_all(&self.close),
            industry: self.industry,
        }
    }
}

/// Some of the first `rows` prices is missing.
pub open spec fn has_null<T>(values: Seq<Option<T>>, rows: nat) -> bool {
    exists|i: int| 0 <= i < rows && (#[trigger] values[i]) is None
}

/// The first `rows` prices, `missing` standing for each that is missing; nothing if one is
/// and nothing stands for it.
pub open spec fn filled<T>(values: Seq<Option<T>>, rows: nat, missing: Option<T>) -> Option<
    Seq<T>,
> {
    if has_null(values, rows) && missing is None {
        None
    } else {
        Some(
            Seq::new(
                rows,
                |i: int|
                    match values[i] {
                        Some(value) => value,
                        None => missing->0,
                    },
            ),
        )
    }
}

/// Pull the first `rows` raw prices. A missing one becomes `missing`, so the vector stays
/// aligned with the dates, or is refused if nothing stands for it.
pub fn price_column<T: Copy>(values: &Vec<Option<T>>, rows: usize, missing: Option<T>) -> (column:
    Result<Vec<T>, StoreError>)
    requires
        rows <= values.len(),
    ensures
        match filled(values@, rows as nat, missing) {
            Some(prices) => column matches Ok(out) && out@ == prices,
            None => column == Err::<Vec<T>, StoreError>(StoreError::NullPrice),
        },
{
    let mut out: Vec<T> = Vec::new();
    let mut at: usize = 0;
    while at < rows
        invariant
            at <= rows <= values.len(),
            out.len() == at,
            missing is None ==> forall|i: int| 0 <= i < at ==> (#[trigger] values@[i]) is Some,
            forall|i: int|
                0 <= i < at ==> #[trigger] out@[i] == (match values@[i] {
                    Some(value) => value,
                    None => missing->0,
                }),
        decreases rows - at,
    {
        match values[at] {
            Some(value) => {
                out.push(value);
            },
            None => match missing {
                Some(value) => {
                    out.push(value);
                },
                None => {
                    assert(values@[at as int] is None);
                    return Err(StoreError::NullPrice);
                },
            },
        }
        at = at + 1;
    }
    proof {
        let prices = filled(values@, rows as nat, missing);
        assert(prices is Some);
        assert(out@ =~= prices->0);
    }
    Ok(out)
}

/// The ticker of the first `rows` rows of a group with these labels and rewards; nothing if
/// a price among them is missing and nothing stands for it.
pub open spec fn ticker_of<T>(
    group: TickerGroup<T>,
    rows: nat,
    labels: Seq<u8>,
    rewards: Seq<T>,
    missing: Option<T>,
) -> Option<TickerView<T>> {
    match (
        filled(group.open@, rows, missing),
        filled(group.high@, rows, missing),
        filled(group.low@, rows, missing),
        filled(group.close@, rows, missing),
    ) {
        (Some(open), Some(high), Some(low), Some(close)) => Some(
            TickerView {
                history: HistoryView {
                    name: group.name@,
                    dates: group.dates@.take(rows as int),
                    features: group.features@.take(rows * FEATURES),
                    labels,
                },
                rewards,
                open,
                high,
                low,
                close,
                industry: 0,
            },
        ),
        _ => None,
    }
}

/// Cut a group to its first `rows` rows and flatten it.
fn flatten<T: Copy>(
    group: &TickerGroup<T>,
    rows: usize,
    labels: Vec<u8>,
    rewards: Vec<T>,
    missing: Option<T>,
) -> (ticker: Result<Ticker<T>, StoreError>)
    requires
        group.wf(),
        rows <= group.dates@.len(),
        labels@.len() == rows,
        rewards@.len() == rows,
    ensures
        match ticker_of(*group, rows as nat, labels@, rewards@, missing) {
            Some(view) => ticker matches Ok(out) && out@ == view && out@.wf(),
            None => ticker == Err::<Ticker<T>, StoreError>(StoreError::NullPrice),
        },
{
    let open = match price_column(&group.open, rows, missing) {
        Ok(column) => column,
        Err(error) => return Err(error),
    };
    let high = match price_column(&group.high, rows, missing) {
        Ok(column) => column,
        Err(error) => return Err(error),
    };
    let low = match price_column(&group.low, rows, missing) {
        Ok(column) => column,
        Err(error) => return Err(error),
    };
    let close = match price_column(&group.close, rows, missing) {
        Ok(column) => column,
        Err(error) => return Err(error),
    };
    let height = group.dates.len();
    let width = group.features.len();
    assert(rows * FEATURES <= height * FEATURES) by (nonlinear_arith)
        requires
            rows <= height,
    ;
    let ticker = Ticker {
        history: History {
            name: group.name.clone(),
            dates: copy_range(&group.dates, 0, rows),
            features: copy_range(&group.features, 0, rows * FEATURES),
            labels,
        },
        rewards,
        open,
        high,
        low,
        close,
        industry: 0,
    };
    proof {
        let view = ticker_of(*group, rows as nat, labels@, rewards@, missing)->0;
        assert(ticker@ =~= view);
        assert forall|i: int, j: int|
            #![trigger ticker@.history.dates[i], ticker@.history.dates[j]]
            0 <= i < j < rows implies ticker@.history.dates[i] <= ticker@.history.dates[j] by {
            assert(group.dates@[i] <= group.dates@[j]);
        }
    }
    Ok(ticker)
}

/// Every ticker's flattened history.
pub struct TickerStore<T> {
    pub tickers: Vec<Ticker<T>>,
    /// Number of industry buckets; 0 when no industries are attached.
    pub n_industries: usize,
}

impl<T> View for TickerStore<T> {
    type V = Seq<TickerView<T>>;

    open spec fn view(&self) -> Seq<TickerView<T>> {
        self.tickers@.map_values(|ticker: Ticker<T>| ticker@)
    }
}

/// Every ticker is well-formed.
pub open spec fn all_wf<T>(tickers: Seq<TickerView<T>>) -> bool {
    forall|t: int| 0 <= t < tickers.len() ==> (#[trigger] tickers[t]).wf()
}

/// The tickers of labeled groups: each group loses its last `horizon` rows, one without
/// more rows than that yields nothing. Nothing at all if a kept price is missing and nothing
/// stands for it.
pub open spec fn loaded<T>(
    groups: Seq<LabeledGroup<T>>,
    horizon: nat,
    missing: Option<T>,
) -> Option<Seq<TickerView<T>>>
    decreases groups.len(),
{
    if groups.len() == 0 {
        Some(Seq::empty())
    } else {
        let height = groups.last().group.dates@.len();
        match loaded(groups.drop_last(), horizon, missing) {
            None => None,
            Some(tickers) => if height <= horizon {
                Some(tickers)
            } else {
                match ticker_of(
                    groups.last().group,
                    (height - horizon) as nat,
                    groups.last().labels@,
                    groups.last().rewards@,
                    missing,
                ) {
                    None => None,
                    Some(ticker) => Some(tickers.push(ticker)),
                }
            },
        }
    }
}

/// The tickers of price groups: every row of each, with a label of zero and the reward
/// `unread`; empty groups yield nothing. Nothing at all if a price is missing.
pub open spec fn loaded_prices<T>(groups: Seq<TickerGroup<T>>, unread: T) -> Option<
    Seq<TickerView<T>>,
>
    decreases groups.len(),
{
    if groups.len() == 0 {
        Some(Seq::empty())
    } else {
        let height = groups.last().dates@.len();
        match loaded_prices(groups.drop_last(), unread) {
            None => None,
            Some(tickers) => if height == 0 {
                Some(tickers)
            } else {
                match ticker_of(
                    groups.last(),
                    height,
                    Seq::new(height, |i: int| 0u8),
                    Seq::new(height, |i: int| unread),
                    None,
                ) {
                    None => None,
                    Some(ticker) => Some(tickers.push(ticker)),
                }
            },
        }
    }
}

/// A load that failed on the first groups fails on all of them.
proof fn lemma_load_fails<T>(
    groups: Seq<LabeledGroup<T>>,
    count: int,
    horizon: nat,
    missing: Option<T>,
)
    requires
        0 <= count <= groups.len(),
        loaded(groups.take(count), horizon, missing) is None,
    ensures
        loaded(groups, horizon, missing) is None,
    decreases groups.len() - count,
{
    if count < groups.len() {
        assert(groups.take(count + 1).drop_last() =~= groups.take(count));
        lemma_load_fails(groups, count + 1, horizon, missing);
    } else {
        assert(groups.take(count) =~= groups);
    }
}

/// A load that failed on the first groups fails on all of them.
proof fn lemma_load_prices_fails<T>(groups: Seq<TickerGroup<T>>, count: int, unread: T)
    requires
        0 <= count <= groups.len(),
        loaded_prices(groups.take(count), unread) is None,
    ensures
        loaded_prices(groups, unread) is None,
    decreases groups.len() - count,
{
    if count < groups.len() {
        assert(groups.take(count + 1).drop_last() =~= groups.take(count));
        lemma_load_prices_fails(groups, count + 1, unread);
    } else {
        assert(groups.take(count) =~= groups);
    }
}

/// `count` copies of one value.
fn repeated<T: Copy>(value: T, count: usize) -> (values: Vec<T>)
    ensures
        values@ == Seq::new(count as nat, |i: int| value),
{
    let mut values: Vec<T> = Vec::new();
    let mut at: usize = 0;
    while at < count
        invariant
            at <= count,
            values@ =~= Seq::new(at as nat, |i: int| value),
        decreases count - at,
    {
        values.push(value);
        at = at + 1;
    }
    values
}

impl<T: Copy> TickerStore<T> {
    /// One flat [`Ticker`] per group, cut to the rows that have a full forward window of
    /// `horizon` rows. A missing price becomes `missing`, or is refused if nothing stands
    /// for it.
    pub fn load(groups: &Vec<LabeledGroup<T>>, horizon: usize, missing: Option<T>) -> (store:
        Result<Self, StoreError>)
        requires
            forall|g: int| 0 <= g < groups.len() ==> (#[trigger] groups@[g]).wf(horizon as nat),
        ensures
            match loaded(groups@, horizon as nat, missing) {
                Some(tickers) => store matches Ok(out) && out@ == tickers && all_wf(out@)
                    && out.n_industries == 0,
                None => store == Err::<Self, StoreError>(StoreError::NullPrice),
            },
    {
        let mut store = TickerStore { tickers: Vec::new(), n_industries: 0 };
        let mut at: usize = 0;
        assert(store@ =~= Seq::<TickerView<T>>::empty());
        while at < groups.len()
            invariant
                at <= groups.len(),
                forall|g: int|
                    0 <= g < groups.len() ==> (#[trigger] groups@[g]).wf(horizon as nat),
                loaded(groups@.take(at as int), horizon as nat, missing) == Some(store@),
                all_wf(store@),
                store.n_industries == 0,
            decreases groups.len() - at,
        {
            let ghost before = store@;
            assert(groups@[at as int].wf(horizon as nat));
            assert(groups@.take(at + 1).drop_last() =~= groups@.take(at as int));
            let labeled = &groups[at];
            let height = labeled.group.dates.len();
            // Too short for even one labeled row otherwise.
            if height > horizon {
                match flatten(
                    &labeled.group,
                    height - horizon,
                    copy_all(&labeled.labels),
                    copy_all(&labeled.rewards),
                    missing,
                ) {
                    Ok(ticker) => {
                        store.tickers.push(ticker);
                        assert(store@ =~= before.push(ticker@));
                    },
                    Err(error) => {
                        proof {
                            lemma_load_fails(groups@, at + 1, horizon as nat, missing);
                        }
                        return Err(error);
                    },
                }
            }
            at = at + 1;
        }
        assert(groups@.take(at as int) =~= groups@);
        Ok(store)
    }

    /// Every row of every group for the backtest, no trailing-horizon chop, so the most
    /// recent bars stay tradeable. Labels are zeroed and rewards set to `unread`, since
    /// inference never reads them. A missing price is refused.
    pub fn load_prices(groups: &Vec<TickerGroup<T>>, unread: T) -> (store: Result<Self, StoreError>)
        requires
            forall|g: int| 0 <= g < groups.len() ==> (#[trigger] groups@[g]).wf(),
        ensures
            match loaded_prices(groups@, unread) {
                Some(tickers) => store matches Ok(out) && out@ == tickers && all_wf(out@)
                    && out.n_industries == 0,
                None => store == Err::<Self, StoreError>(StoreError::NullPrice),
            },
    {
        let mut store = TickerStore { tickers: Vec::new(), n_industries: 0 };
        let mut at: usize = 0;
        assert(store@ =~= Seq::<TickerView<T>>::empty());
        while at < groups.len()
            invariant
                at <= groups.len(),
                forall|g: int| 0 <= g < groups.len() ==> (#[trigger] groups@[g]).wf(),
                loaded_prices(groups@.take(at as int), unread) == Some(store@),
                all_wf(store@),
                store.n_industries == 0,
            decreases groups.len() - at,
        {
            let ghost before = store@;
            assert(groups@[at as int].wf());
            assert(groups@.take(at + 1).drop_last() =~= groups@.take(at as int));
            let group = &groups[at];
            let height = group.dates.len();
            if height > 0 {
                match flatten(group, height, repeated(0u8, height), repeated(unread, height), None) {
                    Ok(ticker) => {
                        store.tickers.push(ticker);
                        assert(store@ =~= before.push(ticker@));
                    },
                    Err(error) => {
                        proof {
                            lemma_load_prices_fails(groups@, at + 1, unread);
                        }
                        return Err(error);
                    },
                }
            }
            at = at + 1;
        }
        assert(groups@.take(at as int) =~= groups@);
        Ok(store)
    }
}

/// One window that a predictor reads, dated at its last bar.
pub struct InferenceWindow<T> {
    pub ticker: String,
    pub date: i32,
    /// Row-major features, five per step.
    pub features: Vec<T>,
}

/// An inference window as plain sequences.
#[verifier::ext_equal]
pub struct WindowView<T> {
    pub ticker: Seq<char>,
    pub date: i32,
    pub features: Seq<T>,
}

impl<T> View for InferenceWindow<T> {
    type V = WindowView<T>;

    open spec fn view(&self) -> WindowView<T> {
        WindowView { ticker: self.ticker@, date: self.date, features: self.features@ }
    }
}

/// The windows as plain sequences.
pub open spec fn window_views<T>(windows: Seq<InferenceWindow<T>>) -> Seq<WindowView<T>> {
    windows.map_values(|window: InferenceWindow<T>| window@)
}

/// The window of `steps` rows from `start` on.
pub open spec fn window_at<T>(ticker: TickerView<T>, start: int, steps: int) -> WindowView<T> {
    WindowView {
        ticker: ticker.history.name,
        date: ticker.history.dates[start + steps - 1],
        features: ticker.history.window(start, steps),
    }
}

/// How many windows of `steps` rows the ticker has.
pub open spec fn window_count<T>(ticker: TickerView<T>, steps: nat) -> nat {
    if ticker.history.rows() < steps {
        0
    } else {
        (ticker.history.rows() - steps + 1) as nat
    }
}

/// Every window of every ticker, in ticker-then-date order.
pub open spec fn every_window<T>(tickers: Seq<TickerView<T>>, steps: nat) -> Seq<WindowView<T>>
    decreases tickers.len(),
{
    if tickers.len() == 0 {
        Seq::empty()
    } else {
        every_window(tickers.drop_last(), steps) + Seq::new(
            window_count(tickers.last(), steps),
            |start: int| window_at(tickers.last(), start, steps as int),
        )
    }
}

/// The reward at the last bar of every window, in the order of [`every_window`].
pub open spec fn every_reward<T>(tickers: Seq<TickerView<T>>, steps: nat) -> Seq<T>
    decreases tickers.len(),
{
    if tickers.len() == 0 {
        Seq::empty()
    } else {
        every_reward(tickers.drop_last(), steps) + Seq::new(
            window_count(tickers.last(), steps),
            |start: int| tickers.last().rewards[start + steps - 1],
        )
    }
}

/// Of the windows that start before `count`, those whose last bar is on or after `cutoff`.
pub open spec fn recent_windows<T>(
    ticker: TickerView<T>,
    steps: nat,
    cutoff: i32,
    count: nat,
) -> Seq<WindowView<T>>
    decreases count,
{
    if count == 0 {
        Seq::empty()
    } else {
        let earlier = recent_windows(ticker, steps, cutoff, (count - 1) as nat);
        let last = window_at(ticker, count - 1, steps as int);
        if last.date < cutoff {
            earlier
        } else {
            earlier.push(last)
        }
    }
}

/// Every window whose last bar is on or after `cutoff`, in ticker-then-date order.
pub open spec fn every_window_since<T>(
    tickers: Seq<TickerView<T>>,
    steps: nat,
    cutoff: i32,
) -> Seq<WindowView<T>>
    decreases tickers.len(),
{
    if tickers.len() == 0 {
        Seq::empty()
    } else {
        every_window_since(tickers.drop_last(), steps, cutoff) + recent_windows(
            tickers.last(),
            steps,
            cutoff,
            window_count(tickers.last(), steps),
        )
    }
}

/// One ticker's raw daily prices for the backtest. The price vectors share the order of
/// `dates`.
pub struct TickerQuotes<T> {
    pub ticker: String,
    pub dates: Vec<i32>,
    pub open: Vec<T>,
    pub high: Vec<T>,
    pub low: Vec<T>,
    pub close: Vec<T>,
}

/// `quotes` are the dates and prices of `ticker`.
pub open spec fn quotes_of<T>(ticker: TickerView<T>, quotes: TickerQuotes<T>) -> bool {
    &&& quotes.ticker@ == ticker.history.name
    &&& quotes.dates@ == ticker.history.dates
    &&& quotes.open@ == ticker.open
    &&& quotes.high@ == ticker.high
    &&& quotes.low@ == ticker.low
    &&& quotes.close@ == ticker.close
}

impl<T: Copy> Ticker<T> {
    /// The window of `steps` rows from `start` on.
    fn inference_window(&self, start: usize, steps: usize) -> (window: InferenceWindow<T>)
        requires
            self@.wf(),
            steps > 0,
            start + steps <= self@.history.rows(),
        ensures
            window@ == window_at(self@, start as int, steps as int),
    {
        let rows = self.rows();
        assert(start + steps <= rows);
        InferenceWindow {
            ticker: self.history.name.clone(),
            date: self.history.dates[start + steps - 1],
            features: self.history.window(start, steps),
        }
    }
}

impl<T: Copy> TickerStore<T> {
    /// Materialize every `steps`-length window of every ticker, with the realized reward at
    /// its prediction bar, the window's last day. The two vectors share an index.
    pub fn backtest_windows(&self, steps: usize) -> (pairs: (Vec<InferenceWindow<T>>, Vec<T>))
        requires
            all_wf(self@),
            self@.len() > 0 ==> steps > 0,
        ensures
            window_views(pairs.0@) == every_window(self@, steps as nat),
            pairs.1@ == every_reward(self@, steps as nat),
    {
        let mut windows: Vec<InferenceWindow<T>> = Vec::new();
        let mut rewards: Vec<T> = Vec::new();
        let mut at: usize = 0;
        while at < self.tickers.len()
            invariant
                at <= self.tickers.len(),
                all_wf(self@),
                self@.len() > 0 ==> steps > 0,
                window_views(windows@) =~= every_window(self@.take(at as int), steps as nat),
                rewards@ =~= every_reward(self@.take(at as int), steps as nat),
            decreases self.tickers.len() - at,
        {
            let ghost earlier = window_views(windows@);
            let ghost paid = rewards@;
            let ticker = &self.tickers[at];
            assert(self@[at as int] == ticker@);
            assert(self@.take(at + 1).drop_last() =~= self@.take(at as int));
            let rows = ticker.rows();
            let count: usize = if rows < steps {
                0
            } else {
                rows - steps + 1
            };
            let mut start: usize = 0;
            while start < count
                invariant
                    start <= count,
                    rows == ticker@.history.rows(),
                    count == window_count(ticker@, steps as nat),
                    ticker@.wf(),
                    steps > 0,
                    window_views(windows@) =~= earlier + Seq::new(
                        start as nat,
                        |s: int| window_at(ticker@, s, steps as int),
                    ),
                    rewards@ =~= paid + Seq::new(
                        start as nat,
                        |s: int| ticker@.rewards[s + steps - 1],
                    ),
                decreases count - start,
            {
                let ghost before = window_views(windows@);
                // The prediction is made from the window's last bar, so its reward and date
                // come from that row.
                let window = ticker.inference_window(start, steps);
                windows.push(window);
                rewards.push(ticker.rewards[start + steps - 1]);
                assert(window_views(windows@) =~= before.push(window@));
                start = start + 1;
            }
            at = at + 1;
        }
        assert(self@.take(at as int) =~= self@);
        (windows, rewards)
    }

    /// Every `steps`-length window whose last bar is on or after `cutoff`, dated at that
    /// last bar. The window start may precede the cutoff, so a held-out day draws its
    /// lookback from earlier bars.
    pub fn backtest_windows_since(&self, steps: usize, cutoff: i32) -> (windows: Vec<
        InferenceWindow<T>,
    >)
        requires
            all_wf(self@),
            self@.len() > 0 ==> steps > 0,
        ensures
            window_views(windows@) == every_window_since(self@, steps as nat, cutoff),
    {
        let mut windows: Vec<InferenceWindow<T>> = Vec::new();
        let mut at: usize = 0;
        while at < self.tickers.len()
            invariant
                at <= self.tickers.len(),
                all_wf(self@),
                self@.len() > 0 ==> steps > 0,
                window_views(windows@) =~= every_window_since(
                    self@.take(at as int),
                    steps as nat,
                    cutoff,
                ),
            decreases self.tickers.len() - at,
        {
            let ghost earlier = window_views(windows@);
            let ticker = &self.tickers[at];
            assert(self@[at as int] == ticker@);
            assert(self@.take(at + 1).drop_last() =~= self@.take(at as int));
            let rows = ticker.rows();
            let count: usize = if rows < steps {
                0
            } else {
                rows - steps + 1
            };
            let mut start: usize = 0;
            while start < count
                invariant
                    start <= count,
                    rows == ticker@.history.rows(),
                    count == window_count(ticker@, steps as nat),
                    ticker@.wf(),
                    steps > 0,
                    window_views(windows@) =~= earlier + recent_windows(
                        ticker@,
                        steps as nat,
                        cutoff,
                        start as nat,
                    ),
                decreases count - start,
            {
                let ghost before = window_views(windows@);
                if ticker.history.dates[start + steps - 1] >= cutoff {
                    let window = ticker.inference_window(start, steps);
                    windows.push(window);
                    assert(window_views(windows@) =~= before.push(window@));
                }
                start = start + 1;
            }
            at = at + 1;
        }
        assert(self@.take(at as int) =~= self@);
        windows
    }

    /// Each ticker's raw daily prices for the backtest, one [`TickerQuotes`] per ticker with
    /// the price vectors aligned to `dates`.
    pub fn quotes(&self) -> (quotes: Vec<TickerQuotes<T>>)
        ensures
            quotes@.len() == self@.len(),
            forall|t: int| 0 <= t < self@.len() ==> quotes_of(self@[t], #[trigger] quotes@[t]),
    {
        let mut quotes: Vec<TickerQuotes<T>> = Vec::new();
        let mut at: usize = 0;
        while at < self.tickers.len()
            invariant
                at <= self.tickers.len(),
                quotes@.len() == at,
                forall|t: int| 0 <= t < at ==> quotes_of(self@[t], #[trigger] quotes@[t]),
            decreases self.tickers.len() - at,
        {
            let ticker = &self.tickers[at];
            quotes.push(
                TickerQuotes {
                    ticker: ticker.history.name.clone(),
                    dates: copy_all(&ticker.history.dates),
                    open: copy_all(&ticker.open),
                    high: copy_all(&ticker.high),
                    low: copy_all(&ticker.low),
                    close: copy_all(&ticker.close),
                },
            );
            at = at + 1;
        }
        quotes
    }
}

/// The tickers that a draw of `count` with `seed` keeps: all of them if there are no more,
/// those at the drawn indices otherwise.
pub open spec fn sampled<T>(tickers: Seq<TickerView<T>>, count: usize, seed: u64) -> Seq<
    TickerView<T>,
> {
    if count >= tickers.len() {
        tickers
    } else {
        let drawn = chosen_indices(usize::BITS, seed, tickers.len(), count as nat);
        Seq::new(drawn.len(), |i: int| tickers[drawn[i] as int])
    }
}

/// Of each ticker the rows before `cutoff`, if there are at least `steps` of them.
pub open spec fn train_side<T>(tickers: Seq<TickerView<T>>, cutoff: i32, steps: nat) -> Seq<
    TickerView<T>,
>
    decreases tickers.len(),
{
    if tickers.len() == 0 {
        Seq::empty()
    } else {
        let earlier = train_side(tickers.drop_last(), cutoff, steps);
        let cut = rows_before(tickers.last().history.dates, cutoff);
        if cut >= steps {
            earlier.push(tickers.last().head(cut as int))
        } else {
            earlier
        }
    }
}

/// Of each ticker the rows from `cutoff` on, if there are at least `steps` of them.
pub open spec fn valid_side<T>(tickers: Seq<TickerView<T>>, cutoff: i32, steps: nat) -> Seq<
    TickerView<T>,
>
    decreases tickers.len(),
{
    if tickers.len() == 0 {
        Seq::empty()
    } else {
        let earlier = valid_side(tickers.drop_last(), cutoff, steps);
        let cut = rows_before(tickers.last().history.dates, cutoff);
        if tickers.last().history.rows() - cut >= steps {
            earlier.push(tickers.last().tail(cut as int))
        } else {
            earlier
        }
    }
}

impl<T: Copy> TickerStore<T> {
    /// Randomly keep `count` tickers, reproducible by `seed`, for overfit diagnostics. A
    /// no-op when `count` is at least the ticker count.
    pub fn sample_tickers(self, count: usize, seed: u64) -> (sample: Self)
        ensures
            sample@ == sampled(self@, count, seed),
            sample.n_industries == self.n_industries,
            count < self@.len() ==> is_draw(
                chosen_indices(usize::BITS, seed, self@.len(), count as nat),
                self@.len(),
                count as nat,
            ),
    {
        if count >= self.tickers.len() {
            return self;
        }
        let indices = choose_indices(self.tickers.len(), count, seed);
        let mut sample = TickerStore { tickers: Vec::new(), n_industries: self.n_industries };
        let mut at: usize = 0;
        while at < indices.len()
            invariant
                at <= indices.len(),
                is_draw(indices@, self@.len(), count as nat),
                sample.n_industries == self.n_industries,
                sample@ =~= Seq::new(at as nat, |i: int| self@[indices@[i] as int]),
            decreases indices.len() - at,
        {
            let ghost before = sample@;
            assert(indices@[at as int] < self@.len());
            let ticker = self.tickers[indices[at]].duplicate();
            sample.tickers.push(ticker);
            assert(sample@ =~= before.push(ticker@));
            at = at + 1;
        }
        assert(sample@ =~= sampled(self@, count, seed));
        sample
    }

    /// Split every ticker at `cutoff` into an earlier train store and a later valid store.
    /// A side with fewer than `steps` rows is dropped. Errors if either side ends up empty.
    pub fn train_valid_split(&self, cutoff: i32, steps: usize) -> (sides: Result<
        (Self, Self),
        StoreError,
    >)
        requires
            all_wf(self@),
        ensures
            ({
                let train = train_side(self@, cutoff, steps as nat);
                let valid = valid_side(self@, cutoff, steps as nat);
                match sides {
                    Ok((left, right)) => {
                        &&& train.len() > 0
                        &&& valid.len() > 0
                        &&& left@ == train
                        &&& right@ == valid
                        &&& left.n_industries == self.n_industries
                        &&& right.n_industries == self.n_industries
                    },
                    Err(error) => error == StoreError::EmptySplit && (train.len() == 0
                        || valid.len() == 0),
                }
            }),
    {
        let mut train = TickerStore { tickers: Vec::new(), n_industries: self.n_industries };
        let mut valid = TickerStore { tickers: Vec::new(), n_industries: self.n_industries };
        let mut at: usize = 0;
        while at < self.tickers.len()
            invariant
                at <= self.tickers.len(),
                all_wf(self@),
                train@ =~= train_side(self@.take(at as int), cutoff, steps as nat),
                valid@ =~= valid_side(self@.take(at as int), cutoff, steps as nat),
                train.n_industries == self.n_industries,
                valid.n_industries == self.n_industries,
            decreases self.tickers.len() - at,
        {
            let ghost trained = train@;
            let ghost validated = valid@;
            let ticker = &self.tickers[at];
            assert(self@[at as int] == ticker@);
            assert(self@.take(at + 1).drop_last() =~= self@.take(at as int));
            // Dates ascend, so this is where the rows before the cutoff end.
            let split = count_before(&ticker.history.dates, cutoff);
            let (left, right) = ticker.split_at(split);
            if left.rows() >= steps {
                train.tickers.push(left);
                assert(train@ =~= trained.push(left@));
            }
            if right.rows() >= steps {
                valid.tickers.push(right);
                assert(valid@ =~= validated.push(right@));
            }
            at = at + 1;
        }
        assert(self@.take(at as int) =~= self@);
        if train.tickers.len() == 0 || valid.tickers.len() == 0 {
            assert(train@.len() == 0 || valid@.len() == 0);
            return Err(StoreError::EmptySplit);
        }
        Ok((train, valid))
    }

    /// Number of tickers in the store.
    pub fn ticker_count(&self) -> (count: usize)
        ensures
            count == self@.len(),
    {
        self.tickers.len()
    }
}

/// How often `class` occurs among `labels`.
pub open spec fn class_count(labels: Seq<u8>, class: int) -> nat
    decreases labels.len(),
{
    if labels.len() == 0 {
        0
    } else {
        class_count(labels.drop_last(), class) + if labels.last() == class {
            1nat
        } else {
            0nat
        }
    }
}

/// How often `class` occurs among the labels of all tickers.
pub open spec fn class_total<T>(tickers: Seq<TickerView<T>>, class: int) -> nat
    decreases tickers.len(),
{
    if tickers.len() == 0 {
        0
    } else {
        class_total(tickers.drop_last(), class) + class_count(tickers.last().history.labels, class)
    }
}

/// Number of rows of all tickers.
pub open spec fn total_rows<T>(tickers: Seq<TickerView<T>>) -> nat
    decreases tickers.len(),
{
    if tickers.len() == 0 {
        0
    } else {
        total_rows(tickers.drop_last()) + tickers.last().history.rows()
    }
}

/// Every label is one of the three classes.
pub open spec fn classes_only(labels: Seq<u8>) -> bool {
    forall|i: int| 0 <= i < labels.len() ==> #[trigger] labels[i] < 3
}

proof fn lemma_class_count_bounded(labels: Seq<u8>, class: int)
    ensures
        class_count(labels, class) <= labels.len(),
    decreases labels.len(),
{
    if labels.len() > 0 {
        lemma_class_count_bounded(labels.drop_last(), class);
    }
}

proof fn lemma_class_total_bounded<T>(tickers: Seq<TickerView<T>>, class: int)
    requires
        all_wf(tickers),
    ensures
        class_total(tickers, class) <= total_rows(tickers),
    decreases tickers.len(),
{
    if tickers.len() > 0 {
        let shorter = tickers.drop_last();
        assert forall|t: int| 0 <= t < shorter.len() implies (#[trigger] shorter[t]).wf() by {
            assert(tickers[t].wf());
        }
        lemma_class_total_bounded(shorter, class);
        assert(tickers[tickers.len() - 1].wf());
        lemma_class_count_bounded(tickers.last().history.labels, class);
    }
}

/// Fewer tickers have no more rows.
proof fn lemma_rows_grow<T>(tickers: Seq<TickerView<T>>, count: int)
    requires
        0 <= count <= tickers.len(),
    ensures
        total_rows(tickers.take(count)) <= total_rows(tickers),
    decreases tickers.len() - count,
{
    if count < tickers.len() {
        assert(tickers.take(count + 1).drop_last() =~= tickers.take(count));
        lemma_rows_grow(tickers, count + 1);
    } else {
        assert(tickers.take(count) =~= tickers);
    }
}

proof fn lemma_classes_cover(labels: Seq<u8>)
    requires
        classes_only(labels),
    ensures
        class_count(labels, 0) + class_count(labels, 1) + class_count(labels, 2) == labels.len(),
    decreases labels.len(),
{
    if labels.len() > 0 {
        let shorter = labels.drop_last();
        assert forall|i: int| 0 <= i < shorter.len() implies #[trigger] shorter[i] < 3 by {
            assert(labels[i] < 3);
        }
        lemma_classes_cover(shorter);
        assert(labels[labels.len() - 1] < 3);
    }
}

/// The three class counts add up to the number of rows.
pub proof fn class_totals_cover_every_row<T>(tickers: Seq<TickerView<T>>)
    requires
        all_wf(tickers),
        forall|t: int|
            0 <= t < tickers.len() ==> classes_only((#[trigger] tickers[t]).history.labels),
    ensures
        class_total(tickers, 0) + class_total(tickers, 1) + class_total(tickers, 2) == total_rows(
            tickers,
        ),
    decreases tickers.len(),
{
    if tickers.len() > 0 {
        let shorter = tickers.drop_last();
        assert forall|t: int| 0 <= t < shorter.len() implies (#[trigger] shorter[t]).wf()
            && classes_only(shorter[t].history.labels) by {
            assert(tickers[t].wf());
        }
        class_totals_cover_every_row(shorter);
        assert(tickers[tickers.len() - 1].wf());
        lemma_classes_cover(tickers.last().history.labels);
    }
}

/// The date columns of the tickers.
pub open spec fn date_columns<T>(tickers: Seq<TickerView<T>>) -> Seq<Seq<i32>> {
    tickers.map_values(|ticker: TickerView<T>| ticker.history.dates)
}

/// The row counts of the tickers.
pub open spec fn row_counts<T>(tickers: Seq<TickerView<T>>) -> Seq<usize> {
    tickers.map_values(|ticker: TickerView<T>| ticker.history.rows() as usize)
}

/// The first row of ticker `t` once all histories are laid out end to end.
pub open spec fn row_offset<T>(tickers: Seq<TickerView<T>>, t: int) -> nat {
    total_rows(tickers.take(t))
}

impl<T: Copy> TickerStore<T> {
    /// Per-class label counts, indexed Sell 0, Hold 1, Buy 2.
    pub fn label_counts(&self) -> (counts: [usize; 3])
        requires
            all_wf(self@),
            total_rows(self@) <= usize::MAX,
            forall|t: int|
                0 <= t < self@.len() ==> classes_only((#[trigger] self@[t]).history.labels),
        ensures
            counts[0] == class_total(self@, 0),
            counts[1] == class_total(self@, 1),
            counts[2] == class_total(self@, 2),
    {
        let mut sell: usize = 0;
        let mut hold: usize = 0;
        let mut buy: usize = 0;
        let mut at: usize = 0;
        while at < self.tickers.len()
            invariant
                at <= self.tickers.len(),
                all_wf(self@),
                total_rows(self@) <= usize::MAX,
                forall|t: int|
                    0 <= t < self@.len() ==> classes_only((#[trigger] self@[t]).history.labels),
                sell == class_total(self@.take(at as int), 0),
                hold == class_total(self@.take(at as int), 1),
                buy == class_total(self@.take(at as int), 2),
            decreases self.tickers.len() - at,
        {
            let labels = &self.tickers[at].history.labels;
            assert(self@[at as int].history.labels == labels@);
            let ghost tickers = self@.take(at as int);
            let ghost longer = self@.take(at + 1);
            assert(longer.drop_last() =~= tickers);
            let mut row: usize = 0;
            while row < labels.len()
                invariant
                    row <= labels.len(),
                    classes_only(labels@),
                    at < self@.len(),
                    all_wf(self@),
                    total_rows(self@) <= usize::MAX,
                    tickers == self@.take(at as int),
                    longer == self@.take(at + 1),
                    longer.drop_last() == tickers,
                    labels@ == self@[at as int].history.labels,
                    sell == class_total(tickers, 0) + class_count(labels@.take(row as int), 0),
                    hold == class_total(tickers, 1) + class_count(labels@.take(row as int), 1),
                    buy == class_total(tickers, 2) + class_count(labels@.take(row as int), 2),
                decreases labels.len() - row,
            {
                proof {
                    assert(labels@.take(row + 1).drop_last() =~= labels@.take(row as int));
                    assert(all_wf(tickers));
                    assert(self@[at as int].wf());
                    lemma_class_total_bounded(tickers, 0);
                    lemma_class_total_bounded(tickers, 1);
                    lemma_class_total_bounded(tickers, 2);
                    lemma_class_count_bounded(labels@.take(row as int), 0);
                    lemma_class_count_bounded(labels@.take(row as int), 1);
                    lemma_class_count_bounded(labels@.take(row as int), 2);
                    lemma_rows_grow(self@, at + 1);
                    assert(labels@[row as int] < 3);
                }
                let label = labels[row];
                if label == 0 {
                    sell = sell + 1;
                } else if label == 1 {
                    hold = hold + 1;
                } else {
                    buy = buy + 1;
                }
                row = row + 1;
            }
            assert(labels@.take(row as int) =~= labels@);
            at = at + 1;
        }
        assert(self@.take(at as int) =~= self@);
        [sell, hold, buy]
    }

    /// The latest date across every ticker, to anchor the split. `None` only when no ticker
    /// has a dated row.
    pub fn max_date(&self) -> (day: Option<i32>)
        ensures
            day == latest(date_columns(self@)),
    {
        let mut day: Option<i32> = None;
        let mut at: usize = 0;
        while at < self.tickers.len()
            invariant
                at <= self.tickers.len(),
                day == latest(date_columns(self@).take(at as int)),
            decreases self.tickers.len() - at,
        {
            let ghost columns = date_columns(self@);
            assert(columns.take(at + 1).drop_last() =~= columns.take(at as int));
            assert(columns.take(at + 1).last() == self.tickers@[at as int].history.dates@);
            day = later(day, &self.tickers[at].history.dates);
            at = at + 1;
        }
        assert(date_columns(self@).take(at as int) =~= date_columns(self@));
        day
    }

    /// Every `steps`-length window as a `(ticker_index, window_start)` pair, the pool a
    /// dataset indexes into. Short tickers contribute none.
    pub fn enumerate_windows(&self, steps: usize) -> (windows: Vec<(u32, u32)>)
        requires
            pool_fits(row_counts(self@), steps as nat),
        ensures
            windows@ == window_pool(row_counts(self@), steps as nat),
    {
        let mut rows: Vec<usize> = Vec::new();
        let mut at: usize = 0;
        while at < self.tickers.len()
            invariant
                at <= self.tickers.len(),
                rows@ =~= row_counts(self@).take(at as int),
            decreases self.tickers.len() - at,
        {
            rows.push(self.tickers[at].rows());
            at = at + 1;
        }
        assert(rows@ =~= row_counts(self@));
        enumerate_windows(&rows, steps)
    }

    /// Prefix sum of per-ticker row counts: a `(ticker_index, start)` window maps to the
    /// absolute row `row_offsets()[ticker_index] + start`.
    pub fn row_offsets(&self) -> (offsets: Vec<u32>)
        requires
            total_rows(self@) <= u32::MAX,
        ensures
            offsets@.len() == self@.len(),
            forall|t: int| 0 <= t < self@.len() ==> #[trigger] offsets@[t] == row_offset(self@, t),
    {
        let mut offsets: Vec<u32> = Vec::new();
        let mut offset: u32 = 0;
        let mut at: usize = 0;
        while at < self.tickers.len()
            invariant
                at <= self.tickers.len(),
                total_rows(self@) <= u32::MAX,
                offsets@.len() == at,
                offset == row_offset(self@, at as int),
                forall|t: int| 0 <= t < at ==> #[trigger] offsets@[t] == row_offset(self@, t),
            decreases self.tickers.len() - at,
        {
            proof {
                assert(self@.take(at + 1).drop_last() =~= self@.take(at as int));
                assert(self@.take(at + 1).last() == self@[at as int]);
                lemma_rows_grow(self@, at + 1);
            }
            offsets.push(offset);
            let rows = self.tickers[at].rows();
            offset = offset + rows as u32;
            at = at + 1;
        }
        offsets
    }
}

/// Every ticker's history in row-aligned buffers, the batcher's resident gather buffers.
/// `rows` is the shared length; `features` is five wide per row.
pub struct ResidentBuffers<T> {
    pub rows: usize,
    pub features: Vec<T>,
    pub labels: Vec<i32>,
    pub rewards: Vec<T>,
    /// Industry bucket per row.
    pub industry_row: Vec<usize>,
}

/// The buffers as plain sequences.
#[verifier::ext_equal]
pub struct ResidentView<T> {
    pub features: Seq<T>,
    pub labels: Seq<i32>,
    pub rewards: Seq<T>,
    pub industry_row: Seq<usize>,
}

impl<T> View for ResidentBuffers<T> {
    type V = ResidentView<T>;

    open spec fn view(&self) -> ResidentView<T> {
        ResidentView {
            features: self.features@,
            labels: self.labels@,
            rewards: self.rewards@,
            industry_row: self.industry_row@,
        }
    }
}

/// The histories of all tickers laid out end to end.
pub open spec fn laid_out<T>(tickers: Seq<TickerView<T>>) -> ResidentView<T>
    decreases tickers.len(),
{
    if tickers.len() == 0 {
        ResidentView {
            features: Seq::empty(),
            labels: Seq::empty(),
            rewards: Seq::empty(),
            industry_row: Seq::empty(),
        }
    } else {
        let before = laid_out(tickers.drop_last());
        let last = tickers.last();
        ResidentView {
            features: before.features + last.history.features,
            labels: before.labels + last.history.labels.map_values(|label: u8| label as i32),
            rewards: before.rewards + last.rewards,
            industry_row: before.industry_row + Seq::new(
                last.history.rows(),
                |i: int| last.industry,
            ),
        }
    }
}

/// The buffers that the histories are laid out in share their number of rows.
pub proof fn laid_out_is_row_aligned<T>(tickers: Seq<TickerView<T>>)
    requires
        all_wf(tickers),
    ensures
        laid_out(tickers).features.len() == total_rows(tickers) * FEATURES,
        laid_out(tickers).labels.len() == total_rows(tickers),
        laid_out(tickers).rewards.len() == total_rows(tickers),
        laid_out(tickers).industry_row.len() == total_rows(tickers),
    decreases tickers.len(),
{
    if tickers.len() > 0 {
        let shorter = tickers.drop_last();
        assert forall|t: int| 0 <= t < shorter.len() implies (#[trigger] shorter[t]).wf() by {
            assert(tickers[t].wf());
        }
        laid_out_is_row_aligned(shorter);
        assert(tickers[tickers.len() - 1].wf());
        let some = total_rows(shorter);
        let more = tickers.last().history.rows();
        assert((some + more) * FEATURES == some * FEATURES + more * FEATURES) by (nonlinear_arith);
    }
}

/// The absolute row `at` of the resident buffers holds row `row` of ticker `t`.
pub open spec fn row_stands_at<T>(
    tickers: Seq<TickerView<T>>,
    t: int,
    row: int,
    at: int,
) -> bool {
    let buffers = laid_out(tickers);
    &&& 0 <= at < total_rows(tickers)
    &&& buffers.labels[at] == tickers[t].history.labels[row]
    &&& buffers.rewards[at] == tickers[t].rewards[row]
    &&& buffers.industry_row[at] == tickers[t].industry
    &&& buffers.features.subrange(at * FEATURES, at * FEATURES + FEATURES)
        == tickers[t].history.features.subrange(row * FEATURES, row * FEATURES + FEATURES)
}

/// Row `row` of ticker `t` is the absolute row `row_offset(t) + row` of the resident
/// buffers, in each of them.
pub proof fn absolute_row_is_the_ticker_row<T>(tickers: Seq<TickerView<T>>, t: int, row: int)
    requires
        all_wf(tickers),
        0 <= t < tickers.len(),
        0 <= row < tickers[t].history.rows(),
    ensures
        row_offset(tickers, t) + row < total_rows(tickers),
        laid_out(tickers).labels[row_offset(tickers, t) + row] == tickers[t].history.labels[row],
        laid_out(tickers).rewards[row_offset(tickers, t) + row] == tickers[t].rewards[row],
        laid_out(tickers).industry_row[row_offset(tickers, t) + row] == tickers[t].industry,
        forall|k: int|
            0 <= k < FEATURES ==> laid_out(tickers).features[(row_offset(tickers, t) + row)
                * FEATURES + k] == #[trigger] tickers[t].history.features[row * FEATURES + k],
    decreases tickers.len(),
{
    let shorter = tickers.drop_last();
    let last = tickers.last();
    assert forall|i: int| 0 <= i < shorter.len() implies (#[trigger] shorter[i]).wf() by {
        assert(tickers[i].wf());
    }
    assert(tickers[t].wf());
    assert(tickers[tickers.len() - 1].wf());
    laid_out_is_row_aligned(shorter);
    let offset = row_offset(tickers, t);
    assert((offset + row) * FEATURES == offset * FEATURES + row * FEATURES) by (nonlinear_arith);
    assert(row * FEATURES + FEATURES <= tickers[t].history.rows() * FEATURES) by (nonlinear_arith)
        requires
            row + 1 <= tickers[t].history.rows(),
    ;
    if t < shorter.len() {
        assert(shorter[t] == tickers[t]);
        assert(shorter.take(t) =~= tickers.take(t));
        absolute_row_is_the_ticker_row(shorter, t, row);
        let end = (offset + row) * FEATURES + FEATURES;
        assert(end <= total_rows(shorter) * FEATURES) by (nonlinear_arith)
            requires
                offset + row + 1 <= total_rows(shorter),
                end == (offset + row) * FEATURES + FEATURES,
        ;
        assert forall|k: int| 0 <= k < FEATURES implies laid_out(tickers).features[(offset + row)
            * FEATURES + k] == #[trigger] tickers[t].history.features[row * FEATURES + k] by {
            assert(0 <= (offset + row) * FEATURES) by (nonlinear_arith)
                requires
                    0 <= offset + row,
            ;
            assert(laid_out(shorter).features[(offset + row) * FEATURES + k]
                == shorter[t].history.features[row * FEATURES + k]);
        }
    } else {
        assert(tickers.take(t) =~= shorter);
    }
}

impl<T: Copy> TickerStore<T> {
    /// Attach an industry bucket to every ticker, `n_industries` being the one-hot width.
    pub fn set_industries(self, industries: Vec<usize>, n_industries: usize) -> (store: Self)
        requires
            industries@.len() == self@.len(),
        ensures
            store.n_industries == n_industries,
            store@ == Seq::new(
                self@.len(),
                |t: int| TickerView { industry: industries@[t], ..self@[t] },
            ),
    {
        let ghost before = self@;
        let mut tickers = self.tickers;
        let mut at: usize = 0;
        while at < tickers.len()
            invariant
                at <= tickers.len(),
                tickers@.len() == before.len(),
                industries@.len() == before.len(),
                forall|t: int|
                    0 <= t < at ==> (#[trigger] tickers@[t])@ == (TickerView {
                        industry: industries@[t],
                        ..before[t]
                    }),
                forall|t: int| at <= t < tickers@.len() ==> (#[trigger] tickers@[t])@ == before[t],
            decreases tickers.len() - at,
        {
            let bucket = industries[at];
            tickers[at].industry = bucket;
            at = at + 1;
        }
        let store = TickerStore { tickers, n_industries };
        assert(store@ =~= Seq::new(
            before.len(),
            |t: int| TickerView { industry: industries@[t], ..before[t] },
        ));
        store
    }

    /// One window: its features, its ticker's industry bucket, and the label and reward of
    /// its last day.
    pub fn window(&self, ticker_index: u32, start: u32, steps: usize) -> (item: (
        Vec<T>,
        usize,
        i32,
        T,
    ))
        requires
            all_wf(self@),
            ticker_index < self@.len(),
            steps > 0,
            start + steps <= self@[ticker_index as int].history.rows(),
        ensures
            ({
                let ticker = self@[ticker_index as int];
                let last = start + steps - 1;
                &&& item.0@ == ticker.history.window(start as int, steps as int)
                &&& item.0@.len() == steps * FEATURES
                &&& item.1 == ticker.industry
                &&& item.2 == ticker.history.labels[last]
                &&& item.3 == ticker.rewards[last]
            }),
    {
        let ticker = &self.tickers[ticker_index as usize];
        assert(self@[ticker_index as int] == ticker@);
        let rows = ticker.rows();
        let begin: usize = start as usize;
        assert(begin + steps <= rows);
        let features = ticker.history.window(begin, steps);
        let last: usize = begin + steps - 1;
        (features, ticker.industry, ticker.history.labels[last] as i32, ticker.rewards[last])
    }

    /// Flatten every ticker's history into contiguous buffers in [`Self::row_offsets`]
    /// order, so the batcher uploads once and gathers each batch by absolute row.
    pub fn resident_buffers(&self) -> (buffers: ResidentBuffers<T>)
        requires
            all_wf(self@),
        ensures
            buffers@ == laid_out(self@),
            buffers.rows == total_rows(self@),
    {
        let mut rows: usize = 0;
        let mut features: Vec<T> = Vec::new();
        let mut labels: Vec<i32> = Vec::new();
        let mut rewards: Vec<T> = Vec::new();
        let mut industry_row: Vec<usize> = Vec::new();
        let mut at: usize = 0;
        while at < self.tickers.len()
            invariant
                at <= self.tickers.len(),
                all_wf(self@),
                rows == total_rows(self@.take(at as int)),
                features@ =~= laid_out(self@.take(at as int)).features,
                labels@ =~= laid_out(self@.take(at as int)).labels,
                rewards@ =~= laid_out(self@.take(at as int)).rewards,
                industry_row@ =~= laid_out(self@.take(at as int)).industry_row,
            decreases self.tickers.len() - at,
        {
            let ticker = &self.tickers[at];
            proof {
                assert(self@[at as int] == ticker@);
                assert(self@.take(at + 1).drop_last() =~= self@.take(at as int));
                assert(self@.take(at + 1).last() == self@[at as int]);
                assert(self@[at as int].wf());
                assert forall|t: int| 0 <= t < at + 1 implies (#[trigger] self@.take(
                    at + 1,
                )[t]).wf() by {
                    assert(self@[t].wf());
                }
                laid_out_is_row_aligned(self@.take(at + 1));
            }
            let mut part = copy_all(&ticker.history.features);
            features.append(&mut part);
            let mut paid = copy_all(&ticker.rewards);
            rewards.append(&mut paid);
            let mut bucket = repeated(ticker.industry, ticker.rows());
            industry_row.append(&mut bucket);
            let ghost before = labels@;
            let mut row: usize = 0;
            while row < ticker.history.labels.len()
                invariant
                    row <= ticker.history.labels.len(),
                    labels@ =~= before + ticker.history.labels@.take(row as int).map_values(
                        |label: u8| label as i32,
                    ),
                decreases ticker.history.labels.len() - row,
            {
                labels.push(ticker.history.labels[row] as i32);
                row = row + 1;
            }
            assert(ticker.history.labels@.take(row as int) =~= ticker.history.labels@);
            rows = labels.len();
            at = at + 1;
        }
        assert(self@.take(at as int) =~= self@);
        ResidentBuffers { rows, features, labels, rewards, industry_row }
    }
}

/// The offsets are the prefix sums of the row counts, the buffers share their number of rows,
/// and every row of every ticker stands at its ticker's offset, in each of them.
pub proof fn rows_stand_at_their_offsets<T>(tickers: Seq<TickerView<T>>)
    requires
        all_wf(tickers),
    ensures
        row_offset(tickers, 0) == 0,
        row_offset(tickers, tickers.len() as int) == total_rows(tickers),
        forall|t: int|
            0 <= t < tickers.len() ==> #[trigger] row_offset(tickers, t + 1) == row_offset(
                tickers,
                t,
            ) + tickers[t].history.rows(),
        laid_out(tickers).features.len() == total_rows(tickers) * FEATURES,
        laid_out(tickers).labels.len() == total_rows(tickers),
        laid_out(tickers).rewards.len() == total_rows(tickers),
        laid_out(tickers).industry_row.len() == total_rows(tickers),
        forall|t: int, row: int|
            0 <= t < tickers.len() && 0 <= row < tickers[t].history.rows()
                ==> #[trigger] row_stands_at(tickers, t, row, row_offset(tickers, t) + row),
{
    laid_out_is_row_aligned(tickers);
    assert(tickers.take(tickers.len() as int) =~= tickers);
    assert forall|t: int| 0 <= t < tickers.len() implies #[trigger] row_offset(tickers, t + 1)
        == row_offset(tickers, t) + tickers[t].history.rows() by {
        assert(tickers.take(t + 1).drop_last() =~= tickers.take(t));
    }
    assert forall|t: int, row: int|
        0 <= t < tickers.len() && 0 <= row < tickers[t].history.rows() implies
        #[trigger] row_stands_at(tickers, t, row, row_offset(tickers, t) + row) by {
        absolute_row_is_the_ticker_row(tickers, t, row);
        let at = row_offset(tickers, t) + row;
        assert(tickers[t].wf());
        assert(row * FEATURES + FEATURES <= tickers[t].history.rows() * FEATURES)
            by (nonlinear_arith)
            requires
                row + 1 <= tickers[t].history.rows(),
        ;
        assert(at * FEATURES + FEATURES <= total_rows(tickers) * FEATURES) by (nonlinear_arith)
            requires
                at + 1 <= total_rows(tickers),
        ;
        assert(0 <= at * FEATURES && 0 <= row * FEATURES) by (nonlinear_arith)
            requires
                0 <= at,
                0 <= row,
        ;
        let here = laid_out(tickers).features.subrange(at * FEATURES, at * FEATURES + FEATURES);
        let there = tickers[t].history.features.subrange(
            row * FEATURES,
            row * FEATURES + FEATURES,
        );
        assert forall|k: int| 0 <= k < FEATURES implies here[k] == there[k] by {
            assert(there[k] == tickers[t].history.features[row * FEATURES + k]);
            assert(here[k] == laid_out(tickers).features[at * FEATURES + k]);
        }
        assert(here =~= there);
    }
}

/// The sides of a split are well-formed and long enough, no row of the train side is on or
/// after the cutoff, and no row of the valid side is before it.
pub proof fn split_sides_are_apart<T>(tickers: Seq<TickerView<T>>, cutoff: i32, steps: nat)
    requires
        all_wf(tickers),
    ensures
        all_wf(train_side(tickers, cutoff, steps)),
        all_wf(valid_side(tickers, cutoff, steps)),
        forall|t: int|
            0 <= t < train_side(tickers, cutoff, steps).len() ==> (#[trigger] train_side(
                tickers,
                cutoff,
                steps,
            )[t]).history.rows() >= steps,
        forall|t: int|
            0 <= t < valid_side(tickers, cutoff, steps).len() ==> (#[trigger] valid_side(
                tickers,
                cutoff,
                steps,
            )[t]).history.rows() >= steps,
        forall|t: int, r: int|
            0 <= t < train_side(tickers, cutoff, steps).len() && 0 <= r < train_side(
                tickers,
                cutoff,
                steps,
            )[t].history.rows() ==> #[trigger] train_side(
                tickers,
                cutoff,
                steps,
            )[t].history.dates[r] < cutoff,
        forall|t: int, r: int|
            0 <= t < valid_side(tickers, cutoff, steps).len() && 0 <= r < valid_side(
                tickers,
                cutoff,
                steps,
            )[t].history.rows() ==> #[trigger] valid_side(
                tickers,
                cutoff,
                steps,
            )[t].history.dates[r] >= cutoff,
    decreases tickers.len(),
{
    if tickers.len() > 0 {
        let shorter = tickers.drop_last();
        let last = tickers.last();
        assert forall|i: int| 0 <= i < shorter.len() implies (#[trigger] shorter[i]).wf() by {
            assert(tickers[i].wf());
        }
        assert(tickers[tickers.len() - 1].wf());
        split_sides_are_apart(shorter, cutoff, steps);
        let dates = last.history.dates;
        let cut = rows_before(dates, cutoff) as int;
        rows_before_is_the_cut(dates, cutoff);
        split_halves_rejoin(last.history, cut);
        assert(last.head(cut).wf());
        assert(last.tail(cut).wf());
        let trained = train_side(shorter, cutoff, steps);
        let validated = valid_side(shorter, cutoff, steps);
        let train = train_side(tickers, cutoff, steps);
        let valid = valid_side(tickers, cutoff, steps);
        assert forall|t: int| 0 <= t < train.len() implies (#[trigger] train[t]).wf()
            && train[t].history.rows() >= steps by {
            if t < trained.len() {
                assert(train[t] == trained[t]);
            }
        }
        assert forall|t: int| 0 <= t < valid.len() implies (#[trigger] valid[t]).wf()
            && valid[t].history.rows() >= steps by {
            if t < validated.len() {
                assert(valid[t] == validated[t]);
            }
        }
        assert forall|t: int, r: int|
            0 <= t < train.len() && 0 <= r < train[t].history.rows() implies
            #[trigger] train[t].history.dates[r] < cutoff by {
            if t < trained.len() {
                assert(train[t] == trained[t]);
                assert(trained[t].history.dates[r] < cutoff);
            } else {
                assert(train[t].history.dates[r] == dates[r]);
            }
        }
        assert forall|t: int, r: int|
            0 <= t < valid.len() && 0 <= r < valid[t].history.rows() implies
            #[trigger] valid[t].history.dates[r] >= cutoff by {
            if t < validated.len() {
                assert(valid[t] == validated[t]);
                assert(validated[t].history.dates[r] >= cutoff);
            } else {
                assert(valid[t].history.dates[r] == dates[cut + r]);
            }
        }
    }
}

} // verus!
