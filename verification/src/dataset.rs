//! Training samples: every window of a store, by index.
use std::sync::Arc;

use vstd::prelude::*;

#[allow(unused_imports)]
use crate::history::{pool_fits, pool_holds_every_window, window_pool, FEATURES};
use crate::random::shuffle_with_seed;
#[allow(unused_imports)]
use crate::random::{shuffle_order, shuffled_by};
use crate::store::TickerStore;
#[allow(unused_imports)]
use crate::store::{all_wf, row_counts, TickerView};

verus! {

/// One materialized training sample: a stationary feature window with its resolved industry
/// index, action label, and reward.
pub struct StockItem<T> {
    /// Row-major stationary features, five per step.
    pub technical: Vec<T>,
    /// Resolved industry bucket; 0 when no industries are attached.
    pub industry: usize,
    /// Action class index 0/1/2.
    pub label: i32,
    /// Signed forward return at the window's last day.
    pub reward: T,
}

/// Every window lies within its ticker's rows.
pub open spec fn windows_fit<T>(
    tickers: Seq<TickerView<T>>,
    windows: Seq<(u32, u32)>,
    steps: nat,
) -> bool {
    forall|w: int|
        0 <= w < windows.len() ==> (#[trigger] windows[w]).0 < tickers.len() && windows[w].1 + steps
            <= tickers[windows[w].0 as int].history.rows()
}

/// `item` is the sample of `window`: the window's features, its ticker's industry, and the
/// label and reward of its last day.
pub open spec fn item_of<T>(
    tickers: Seq<TickerView<T>>,
    window: (u32, u32),
    steps: nat,
    item: StockItem<T>,
) -> bool {
    let ticker = tickers[window.0 as int];
    let last = window.1 + steps - 1;
    &&& item.technical@ == ticker.history.window(window.1 as int, steps as int)
    &&& item.technical@.len() == steps * FEATURES
    &&& item.industry == ticker.industry
    &&& item.label == ticker.history.labels[last]
    &&& item.reward == ticker.rewards[last]
}

/// A dataset over every `steps`-length window of a [`TickerStore`]. The store is shared, so
/// the train and valid datasets are cheap to build; `get` materializes one window on demand.
pub struct WindowDataset<T> {
    pub store: Arc<TickerStore<T>>,
    /// Every `(ticker_index, window_start)` pair this dataset indexes.
    pub windows: Vec<(u32, u32)>,
    pub steps: usize,
}

impl<T> WindowDataset<T> {
    /// The store is well-formed, and every window lies within it.
    pub open spec fn wf(&self) -> bool {
        &&& all_wf(self.store@)
        &&& windows_fit(self.store@, self.windows@, self.steps as nat)
    }
}

proof fn lemma_pool_fits_store<T>(tickers: Seq<TickerView<T>>, steps: nat)
    requires
        pool_fits(row_counts(tickers), steps),
        forall|t: int| 0 <= t < tickers.len() ==> (#[trigger] tickers[t]).history.rows() <= usize::MAX,
    ensures
        windows_fit(tickers, window_pool(row_counts(tickers), steps), steps),
{
    let rows = row_counts(tickers);
    let pool = window_pool(rows, steps);
    assert forall|w: int| 0 <= w < pool.len() implies (#[trigger] pool[w]).0 < tickers.len()
        && pool[w].1 + steps <= tickers[pool[w].0 as int].history.rows() by {
        pool_holds_every_window(rows, steps, pool[w].0, pool[w].1);
        assert(pool.contains(pool[w]));
        let t = pool[w].0 as int;
        assert(rows[t] == tickers[t].history.rows() as usize);
        assert(tickers[t].history.rows() <= usize::MAX);
    }
}

impl<T: Copy> WindowDataset<T> {
    /// Index every window of the store in ticker-then-date order.
    pub fn new(store: Arc<TickerStore<T>>, steps: usize) -> (dataset: Self)
        requires
            all_wf(store@),
            pool_fits(row_counts(store@), steps as nat),
        ensures
            dataset.wf(),
            dataset.store == store,
            dataset.steps == steps,
            dataset.windows@ == window_pool(row_counts(store@), steps as nat),
    {
        let windows = store.enumerate_windows(steps);
        proof {
            assert forall|t: int| 0 <= t < store@.len() implies (
            #[trigger] store@[t]).history.rows() <= usize::MAX by {
                assert(store@[t].history.dates.len() == store.tickers@[t].history.dates.len());
            }
            lemma_pool_fits_store(store@, steps as nat);
        }
        WindowDataset { store, windows, steps }
    }

    /// Like [`Self::new`] but shuffle the window order once with `seed`. Under a cap this
    /// yields a validation subsample drawn evenly across tickers and dates, and stable
    /// across epochs.
    pub fn subsample(store: Arc<TickerStore<T>>, steps: usize, seed: u64) -> (dataset: Self)
        requires
            all_wf(store@),
            pool_fits(row_counts(store@), steps as nat),
        ensures
            dataset.wf(),
            dataset.store == store,
            dataset.steps == steps,
            ({
                let pool = window_pool(row_counts(store@), steps as nat);
                shuffled_by(pool, shuffle_order(usize::BITS, seed, pool.len()), dataset.windows@)
            }),
    {
        let mut dataset = WindowDataset::new(store, steps);
        let ghost pool = dataset.windows@;
        shuffle_with_seed(&mut dataset.windows, seed);
        proof {
            let order = shuffle_order(usize::BITS, seed, pool.len());
            assert forall|w: int| 0 <= w < dataset.windows@.len() implies (
            #[trigger] dataset.windows@[w]).0 < store@.len() && dataset.windows@[w].1 + steps
                <= store@[dataset.windows@[w].0 as int].history.rows() by {
                assert(0 <= order[w] < pool.len());
                assert(dataset.windows@[w] == pool[order[w]]);
            }
        }
        dataset
    }

    /// Materialize the window at `index`, if there is one.
    pub fn get(&self, index: usize) -> (item: Option<StockItem<T>>)
        requires
            self.wf(),
            self.steps > 0,
        ensures
            index >= self.windows@.len() ==> item is None,
            index < self.windows@.len() ==> (item matches Some(found) && item_of(
                self.store@,
                self.windows@[index as int],
                self.steps as nat,
                found,
            )),
    {
        if index >= self.windows.len() {
            return None;
        }
        let (ticker_index, start) = self.windows[index];
        assert(self.windows@[index as int] == (ticker_index, start));
        let (technical, industry, label, reward) = self.store.window(
            ticker_index,
            start,
            self.steps,
        );
        Some(StockItem { technical, industry, label, reward })
    }

    /// Number of windows.
    pub fn len(&self) -> (count: usize)
        ensures
            count == self.windows@.len(),
    {
        self.windows.len()
    }
}

} // verus!
