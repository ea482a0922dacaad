//! Batches gathered from resident, row-aligned buffers.
use vstd::prelude::*;

use crate::history::{copy_range, FEATURES};
use crate::store::{ResidentBuffers, TickerStore};
#[allow(unused_imports)]
use crate::store::{all_wf, laid_out, laid_out_is_row_aligned, total_rows};

verus! {

/// A window by the absolute row it starts at.
#[derive(Clone, Copy, Debug, PartialEq, Eq, Structural)]
pub struct StockItem {
    pub start: usize,
}

/// One batch in row-major buffers, ready to be uploaded as tensors.
pub struct StockBatch<T> {
    /// Shape `[batch_size, steps, stationary_features]`.
    pub technical: Vec<T>,
    /// Shape `[batch_size, ticker_features]`.
    pub ticker: Vec<u8>,
    /// Shape `[batch_size]`, class index 0/1/2.
    pub label: Vec<i32>,
    /// Shape `[batch_size]`, signed forward return.
    pub reward: Vec<T>,
}

/// One where `bucket` is, zero elsewhere.
pub open spec fn one_hot(bucket: usize, width: nat) -> Seq<u8> {
    Seq::new(
        width,
        |i: int|
            if i == bucket {
                1u8
            } else {
                0u8
            },
    )
}

/// The one-hot rows of `buckets`, one after the other.
pub open spec fn one_hot_rows(buckets: Seq<usize>, width: nat) -> Seq<u8>
    decreases buckets.len(),
{
    if buckets.len() == 0 {
        Seq::empty()
    } else {
        one_hot_rows(buckets.drop_last(), width) + one_hot(buckets.last(), width)
    }
}

/// One-hot encode each bucket into a row of `width`.
pub fn encode_one_hot(buckets: &Vec<usize>, width: usize) -> (data: Vec<u8>)
    ensures
        data@ == one_hot_rows(buckets@, width as nat),
{
    let mut data: Vec<u8> = Vec::new();
    let mut row: usize = 0;
    while row < buckets.len()
        invariant
            row <= buckets.len(),
            data@ =~= one_hot_rows(buckets@.take(row as int), width as nat),
        decreases buckets.len() - row,
    {
        let ghost before = data@;
        let bucket = buckets[row];
        assert(buckets@.take(row + 1).drop_last() =~= buckets@.take(row as int));
        let mut at: usize = 0;
        while at < width
            invariant
                at <= width,
                data@ =~= before + one_hot(bucket, width as nat).take(at as int),
            decreases width - at,
        {
            data.push(
                if at == bucket {
                    1
                } else {
                    0
                },
            );
            at = at + 1;
        }
        assert(one_hot(bucket, width as nat).take(at as int) =~= one_hot(bucket, width as nat));
        row = row + 1;
    }
    assert(buckets@.take(row as int) =~= buckets@);
    data
}

/// Every one-hot row has exactly one mark, at its bucket.
pub proof fn one_hot_rows_have_one_mark(buckets: Seq<usize>, width: nat, row: int, column: int)
    requires
        0 <= row < buckets.len(),
        0 <= column < width,
    ensures
        one_hot_rows(buckets, width).len() == buckets.len() * width,
        0 <= row * width + column < buckets.len() * width,
        one_hot_rows(buckets, width)[row * width + column] == (if column == buckets[row] {
            1u8
        } else {
            0u8
        }),
    decreases buckets.len(),
{
    let shorter = buckets.drop_last();
    lemma_one_hot_length(shorter, width);
    lemma_one_hot_length(buckets, width);
    assert(0 <= row * width) by (nonlinear_arith)
        requires
            0 <= row,
            0 <= width,
    ;
    assert(row * width + width <= buckets.len() * width) by (nonlinear_arith)
        requires
            row + 1 <= buckets.len(),
    ;
    if row < shorter.len() {
        one_hot_rows_have_one_mark(shorter, width, row, column);
        assert(shorter[row] == buckets[row]);
    } else {
        assert(row == shorter.len());
    }
}

proof fn lemma_one_hot_length(buckets: Seq<usize>, width: nat)
    ensures
        one_hot_rows(buckets, width).len() == buckets.len() * width,
    decreases buckets.len(),
{
    if buckets.len() > 0 {
        lemma_one_hot_length(buckets.drop_last(), width);
        let n = buckets.len();
        assert(n * width == (n - 1) * width + width) by (nonlinear_arith);
    }
}

/// The features of each window, one after the other.
pub open spec fn gathered<T>(features: Seq<T>, items: Seq<StockItem>, steps: int) -> Seq<T>
    decreases items.len(),
{
    if items.len() == 0 {
        Seq::empty()
    } else {
        let start = items.last().start;
        gathered(features, items.drop_last(), steps) + features.subrange(
            start * FEATURES,
            (start + steps) * FEATURES,
        )
    }
}

/// Builds a [`StockBatch`] by gathering windows from buffers that hold the whole store. The
/// same resident set serves every batch; the only input per batch is the window starts.
pub struct StockBatcher<T> {
    pub steps: usize,
    pub n_industries: usize,
    pub buffers: ResidentBuffers<T>,
}

impl<T> StockBatcher<T> {
    /// The buffers share their number of rows.
    pub open spec fn wf(&self) -> bool {
        &&& self.buffers@.features.len() == self.buffers.rows * FEATURES
        &&& self.buffers@.labels.len() == self.buffers.rows
        &&& self.buffers@.rewards.len() == self.buffers.rows
        &&& self.buffers@.industry_row.len() == self.buffers.rows
    }
}

impl<T: Copy> StockBatcher<T> {
    /// Lay the store out once. `steps` is the window length and `n_industries` the one-hot
    /// width, both fixed for the run.
    pub fn new(steps: usize, n_industries: usize, store: &TickerStore<T>) -> (batcher: Self)
        requires
            all_wf(store@),
        ensures
            batcher.wf(),
            batcher.steps == steps,
            batcher.n_industries == n_industries,
            batcher.buffers@ == laid_out(store@),
            batcher.buffers.rows == total_rows(store@),
    {
        let buffers = store.resident_buffers();
        proof {
            laid_out_is_row_aligned(store@);
        }
        StockBatcher { steps, n_industries, buffers }
    }

    /// Gather the windows that start at the given absolute rows. Label, reward, and industry
    /// are read on each window's last day.
    pub fn batch(&self, items: &Vec<StockItem>) -> (batch: StockBatch<T>)
        requires
            self.wf(),
            self.steps > 0,
            forall|b: int|
                0 <= b < items@.len() ==> (#[trigger] items@[b]).start + self.steps
                    <= self.buffers.rows,
        ensures
            batch.technical@ == gathered(self.buffers@.features, items@, self.steps as int),
            batch.label@ == Seq::new(
                items@.len(),
                |b: int| self.buffers@.labels[items@[b].start + self.steps - 1],
            ),
            batch.reward@ == Seq::new(
                items@.len(),
                |b: int| self.buffers@.rewards[items@[b].start + self.steps - 1],
            ),
            batch.ticker@ == (if self.n_industries == 0 {
                Seq::empty()
            } else {
                one_hot_rows(
                    Seq::new(
                        items@.len(),
                        |b: int| self.buffers@.industry_row[items@[b].start + self.steps - 1],
                    ),
                    self.n_industries as nat,
                )
            }),
    {
        let mut technical: Vec<T> = Vec::new();
        let mut label: Vec<i32> = Vec::new();
        let mut reward: Vec<T> = Vec::new();
        let mut buckets: Vec<usize> = Vec::new();
        let mut at: usize = 0;
        while at < items.len()
            invariant
                at <= items.len(),
                self.wf(),
                self.steps > 0,
                forall|b: int|
                    0 <= b < items@.len() ==> (#[trigger] items@[b]).start + self.steps
                        <= self.buffers.rows,
                technical@ =~= gathered(
                    self.buffers@.features,
                    items@.take(at as int),
                    self.steps as int,
                ),
                label@ =~= Seq::new(
                    at as nat,
                    |b: int| self.buffers@.labels[items@[b].start + self.steps - 1],
                ),
                reward@ =~= Seq::new(
                    at as nat,
                    |b: int| self.buffers@.rewards[items@[b].start + self.steps - 1],
                ),
                buckets@ =~= Seq::new(
                    at as nat,
                    |b: int| self.buffers@.industry_row[items@[b].start + self.steps - 1],
                ),
            decreases items.len() - at,
        {
            let start = items[at].start;
            let steps = self.steps;
            let rows = self.buffers.rows;
            let width = self.buffers.features.len();
            proof {
                assert(items@[at as int].start + self.steps <= self.buffers.rows);
                assert(items@.take(at + 1).drop_last() =~= items@.take(at as int));
                assert((start + steps) * FEATURES <= rows * FEATURES) by (nonlinear_arith)
                    requires
                        start + steps <= rows,
                ;
                assert(width == rows * FEATURES);
                assert(start * FEATURES <= (start + steps) * FEATURES) by (nonlinear_arith);
            }
            let mut window = copy_range(
                &self.buffers.features,
                start * FEATURES,
                (start + steps) * FEATURES,
            );
            technical.append(&mut window);
            let last: usize = start + steps - 1;
            label.push(self.buffers.labels[last]);
            reward.push(self.buffers.rewards[last]);
            buckets.push(self.buffers.industry_row[last]);
            at = at + 1;
        }
        assert(items@.take(at as int) =~= items@);
        // Width zero when no categorical feature is attached.
        let ticker = if self.n_industries == 0 {
            Vec::new()
        } else {
            encode_one_hot(&buckets, self.n_industries)
        };
        StockBatch { technical, ticker, label, reward }
    }
}

} // verus!
