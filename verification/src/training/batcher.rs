//! Batches copied out of the per-ticker buffers.
use vstd::prelude::*;

use crate::store::TickerStore;
#[allow(unused_imports)]
use crate::store::{all_wf, TickerView};
use crate::training::dataset::StockItem;

verus! {

/// One batch in row-major buffers, ready to be uploaded as tensors.
pub struct StockBatch<T> {
    /// Shape `[batch_size, steps, stationary_features]`.
    pub technical: Vec<T>,
    /// Shape `[batch_size]`, class index 0/1/2.
    pub label: Vec<i64>,
}

/// The features of each window, one after the other.
pub open spec fn gathered<T>(
    tickers: Seq<TickerView<T>>,
    items: Seq<StockItem>,
    steps: int,
) -> Seq<T>
    decreases items.len(),
{
    if items.len() == 0 {
        Seq::empty()
    } else {
        let item = items.last();
        gathered(tickers, items.drop_last(), steps) + tickers[item.ticker as int].history.window(
            item.start as int,
            steps,
        )
    }
}

/// Builds a [`StockBatch`] by copying each window's contiguous rows out of its ticker's
/// buffers into one flat buffer.
pub struct StockBatcher<'a, T> {
    pub steps: usize,
    pub store: &'a TickerStore<T>,
}

impl<'a, T: Copy> StockBatcher<'a, T> {
    /// Batch windows of `steps` rows of the store.
    pub fn new(steps: usize, store: &'a TickerStore<T>) -> (batcher: Self)
        ensures
            batcher.steps == steps,
            batcher.store == store,
    {
        StockBatcher { steps, store }
    }

    /// Copy the windows. The label comes from each window's last day.
    pub fn batch(&self, items: &Vec<StockItem>) -> (batch: StockBatch<T>)
        requires
            self.steps > 0,
            all_wf(self.store@),
            forall|b: int|
                0 <= b < items@.len() ==> (#[trigger] items@[b]).ticker < self.store@.len()
                    && items@[b].start + self.steps <= self.store@[items@[b].ticker as int].history
                    .rows(),
        ensures
            batch.technical@ == gathered(self.store@, items@, self.steps as int),
            batch.label@ == Seq::new(
                items@.len(),
                |b: int|
                    self.store@[items@[b].ticker as int].history.labels[items@[b].start + self.steps
                        - 1] as i64,
            ),
    {
        let mut technical: Vec<T> = Vec::new();
        let mut label: Vec<i64> = Vec::new();
        let mut at: usize = 0;
        while at < items.len()
            invariant
                at <= items.len(),
                self.steps > 0,
                all_wf(self.store@),
                forall|b: int|
                    0 <= b < items@.len() ==> (#[trigger] items@[b]).ticker < self.store@.len()
                        && items@[b].start + self.steps <= self.store@[items@[b].ticker as int]
                        .history.rows(),
                technical@ =~= gathered(self.store@, items@.take(at as int), self.steps as int),
                label@ =~= Seq::new(
                    at as nat,
                    |b: int|
                        self.store@[items@[b].ticker as int].history.labels[items@[b].start
                            + self.steps - 1] as i64,
                ),
            decreases items.len() - at,
        {
            let item = items[at];
            assert(items@[at as int].ticker < self.store@.len());
            assert(items@.take(at + 1).drop_last() =~= items@.take(at as int));
            let ticker = &self.store.tickers[item.ticker];
            assert(self.store@[item.ticker as int] == ticker@);
            let rows = ticker.rows();
            assert(item.start + self.steps <= rows);
            let mut window = ticker.history.window(item.start, self.steps);
            technical.append(&mut window);
            label.push(ticker.history.labels[item.start + self.steps - 1] as i64);
            at = at + 1;
        }
        assert(items@.take(at as int) =~= items@);
        StockBatch { technical, label }
    }
}

proof fn lemma_gathered<T>(
    tickers: Seq<TickerView<T>>,
    items: Seq<StockItem>,
    steps: int,
    b: int,
    k: int,
)
    requires
        steps > 0,
        all_wf(tickers),
        forall|i: int|
            0 <= i < items.len() ==> (#[trigger] items[i]).ticker < tickers.len() && items[i].start
                + steps <= tickers[items[i].ticker as int].history.rows(),
        0 <= b < items.len(),
        0 <= k < steps * 5,
    ensures
        gathered(tickers, items, steps).len() == items.len() * (steps * 5),
        gathered(tickers, items, steps)[b * (steps * 5) + k]
            == tickers[items[b].ticker as int].history.features[items[b].start * 5 + k],
    decreases items.len(),
{
    let fewer = items.drop_last();
    let last = items.last();
    let width = steps * 5;
    assert(items[items.len() - 1] == last);
    let history = tickers[last.ticker as int].history;
    assert(tickers[last.ticker as int].wf());
    assert(history.features.len() == history.rows() * 5);
    assert(0 <= last.start * 5 && (last.start + steps) * 5 <= history.rows() * 5);
    assert(history.window(last.start as int, steps).len() == width);
    assert forall|i: int| 0 <= i < fewer.len() implies (#[trigger] fewer[i]).ticker < tickers.len()
        && fewer[i].start + steps <= tickers[fewer[i].ticker as int].history.rows() by {
        assert(fewer[i] == items[i]);
    }
    if fewer.len() > 0 {
        lemma_gathered(
            tickers,
            fewer,
            steps,
            if b < fewer.len() {
                b
            } else {
                0
            },
            k,
        );
    } else {
        assert(fewer.len() * width == 0) by (nonlinear_arith)
            requires
                fewer.len() == 0,
        ;
    }
    let before = gathered(tickers, fewer, steps);
    let window = history.window(last.start as int, steps);
    assert(before.len() == fewer.len() * width);
    assert(gathered(tickers, items, steps) == before + window);
    assert(items.len() * width == fewer.len() * width + width) by (nonlinear_arith)
        requires
            items.len() == fewer.len() + 1,
    ;
    if b < fewer.len() {
        assert(0 <= b * width + k < fewer.len() * width) by (nonlinear_arith)
            requires
                0 <= b < fewer.len(),
                0 <= k < width,
        ;
    } else {
        assert(b == fewer.len());
        assert((before + window)[before.len() + k] == window[k]);
    }
}

/// A batch holds its windows in order, each row after row as its ticker has them, and labels
/// each by its last day.
pub proof fn batch_holds_each_window_and_its_last_label<'a, T: Copy>(
    batcher: StockBatcher<'a, T>,
    items: Vec<StockItem>,
    batch: StockBatch<T>,
    b: int,
    k: int,
)
    requires
        batcher.steps > 0,
        all_wf(batcher.store@),
        forall|i: int|
            0 <= i < items@.len() ==> (#[trigger] items@[i]).ticker < batcher.store@.len()
                && items@[i].start + batcher.steps
                <= batcher.store@[items@[i].ticker as int].history.rows(),
        call_ensures(StockBatcher::<'a, T>::batch, (&batcher, &items), batch),
        0 <= b < items@.len(),
        0 <= k < batcher.steps * 5,
    ensures
        ({
            let history = batcher.store@[items@[b].ticker as int].history;
            let (start, end) = (items@[b].start as int, items@[b].start + batcher.steps);
            &&& batch.technical@.len() == items@.len() * (batcher.steps * 5)
            &&& batch.technical@[b * (batcher.steps * 5) + k] == history.features[start * 5 + k]
            &&& batch.label@.len() == items@.len()
            &&& batch.label@[b] == history.labels[end - 1]
        }),
{
    lemma_gathered(batcher.store@, items@, batcher.steps as int, b, k);
}

} // verus!
