//! Training samples by ticker and start row, resolved once.
use vstd::prelude::*;

#[allow(unused_imports)]
use crate::history::{pool_fits, window_pool};
use crate::random::shuffle_with_seed;
#[allow(unused_imports)]
use crate::random::{shuffle_order, shuffled_by};
use crate::store::TickerStore;
#[allow(unused_imports)]
use crate::store::row_counts;

verus! {

/// A window by its ticker and the row it starts at there.
#[derive(Clone, Copy, Debug, PartialEq, Eq, Structural)]
pub struct StockItem {
    pub ticker: usize,
    pub start: usize,
}

/// The windows of a pool as items.
pub open spec fn items_of(pool: Seq<(u32, u32)>) -> Seq<StockItem> {
    pool.map_values(
        |window: (u32, u32)| StockItem { ticker: window.0 as usize, start: window.1 as usize },
    )
}

/// A dataset over every `steps`-length window of a [`TickerStore`]. Each window is resolved
/// at construction, so `get` is a cheap lookup.
pub struct WindowDataset {
    pub windows: Vec<StockItem>,
}

impl WindowDataset {
    /// Index every window of the store in ticker-then-date order.
    pub fn new<T: Copy>(store: &TickerStore<T>, steps: usize) -> (dataset: Self)
        requires
            pool_fits(row_counts(store@), steps as nat),
        ensures
            dataset.windows@ == items_of(window_pool(row_counts(store@), steps as nat)),
    {
        let pool = store.enumerate_windows(steps);
        let mut windows: Vec<StockItem> = Vec::new();
        let mut at: usize = 0;
        while at < pool.len()
            invariant
                at <= pool.len(),
                windows@ =~= items_of(pool@.take(at as int)),
            decreases pool.len() - at,
        {
            let (ticker, start) = pool[at];
            windows.push(StockItem { ticker: ticker as usize, start: start as usize });
            at = at + 1;
        }
        assert(pool@.take(at as int) =~= pool@);
        WindowDataset { windows }
    }

    /// Like [`Self::new`] but shuffle once with `seed`, so a cap yields a validation
    /// subsample drawn evenly across tickers and dates.
    pub fn subsample<T: Copy>(store: &TickerStore<T>, steps: usize, seed: u64) -> (dataset: Self)
        requires
            pool_fits(row_counts(store@), steps as nat),
        ensures
            ({
                let items = items_of(window_pool(row_counts(store@), steps as nat));
                shuffled_by(items, shuffle_order(usize::BITS, seed, items.len()), dataset.windows@)
            }),
    {
        let mut dataset = WindowDataset::new(store, steps);
        shuffle_with_seed(&mut dataset.windows, seed);
        dataset
    }

    /// The window at `index`, if there is one.
    pub fn get(&self, index: usize) -> (item: Option<StockItem>)
        ensures
            item == (if index < self.windows@.len() {
                Some(self.windows@[index as int])
            } else {
                None
            }),
    {
        if index < self.windows.len() {
            Some(self.windows[index])
        } else {
            None
        }
    }

    /// Number of windows.
    pub fn len(&self) -> (count: usize)
        ensures
            count == self.windows@.len(),
    {
        self.windows.len()
    }
}

} // verus!
