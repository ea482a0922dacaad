//! A per-ticker data loader over flat OHLCV histories. Every window of every ticker is
//! enumerated once; an epoch walks that pool in batches, in an order that the sampling mode
//! sets.
use vstd::prelude::*;

use crate::batcher::encode_one_hot;
#[allow(unused_imports)]
use crate::batcher::one_hot_rows;
use crate::dataloader::grouping::OhlcvColumns;
use crate::dataloader::industries::{code_or, index_industries, IndustryCode};
#[allow(unused_imports)]
use crate::dataloader::industries::{code_of, codes_are, distinct_codes, distinct_industries};
use crate::dataloader::normalize::normalize_window;
#[allow(unused_imports)]
use crate::dataloader::normalize::normalized_is;
use crate::history::{
    copy_all, copy_range, count_before, count_rows, enumerate_windows, later, History, FEATURES,
};
#[allow(unused_imports)]
use crate::history::{
    ascending, history_rows, history_views, latest, pool_fits, pool_holds_every_window,
    split_halves_rejoin, train_heads, valid_tails, window_pool, HistoryView,
};
use crate::number::Number;
use crate::random::{choose_indices, shuffle_unseeded, shuffle_with_seed, splitmix64};
#[allow(unused_imports)]
use crate::random::{chosen_indices, is_draw, is_order, mixed_seed, shuffle_order, shuffled_by};
use crate::store::StoreError;

pub mod grouping;
pub mod industries;
pub mod meaning;
pub mod normalize;

verus! {

/// How a loader orders the window pool into batches.
#[derive(Clone, Copy, PartialEq, Eq, Debug, Structural)]
pub enum Sampling {
    /// Reshuffle the whole pool every epoch and walk it in `batch_size` chunks, sampling
    /// without replacement. Used for training, so each epoch sees different batches in a
    /// different order.
    Shuffle,
    /// Walk the pool in its fixed order. Used for validation, so the metric is stable from
    /// one epoch to the next.
    Fixed,
}

/// The number of the next epoch. Loaders that are slices of one another share a counter, so
/// that together they advance a single epoch sequence.
#[derive(Clone, Copy, Debug, PartialEq, Eq, Structural)]
pub struct EpochCounter {
    pub next: u64,
}

impl EpochCounter {
    /// A counter that begins with epoch zero.
    pub fn new() -> (epochs: Self)
        ensures
            epochs.next == 0,
    {
        EpochCounter { next: 0 }
    }
}

/// The next epoch after a pass that began at `epoch`: only a shuffled pass counts.
pub open spec fn advanced(sampling: Sampling, epoch: u64) -> u64 {
    match sampling {
        Sampling::Shuffle => vstd::wrapping::u64_specs::wrapping_add(epoch, 1),
        Sampling::Fixed => epoch,
    }
}

/// Per-ticker dataloader. A batch is `batch_size` windows taken from the pool in the order
/// the [`Sampling`] mode produces, so a batch can hold several windows of the same ticker.
pub struct StockDataLoader<N> {
    /// One flattened history per stock, rows sorted by date.
    pub tickers: Vec<History<N>>,
    pub steps: usize,
    pub batch_size: usize,
    pub seed: Option<u64>,
    pub sampling: Sampling,
    /// Every `(ticker_index, window_start)` pair, the pool both modes draw from.
    pub windows: Vec<(u32, u32)>,
    /// Virtual-epoch cap in batches. `None` is one full pass over `windows`.
    pub max_batches: Option<usize>,
    /// First batch to emit, counted over `windows`. Non-zero only after a slice.
    pub batch_offset: usize,
    /// The industry index of each ticker name that has one.
    pub industry_codes: Vec<IndustryCode>,
    /// One-hot width for the industry feature: distinct industries plus a final bucket for
    /// tickers with no known industry. Zero means no categorical feature is attached.
    pub n_industries: usize,
}

/// Every history is well-formed and has a window of `steps` rows, and ticker indices and
/// window starts fit into 32 bits.
pub open spec fn histories_ready<N>(histories: Seq<HistoryView<N>>, steps: nat) -> bool {
    &&& histories.len() <= u32::MAX + 1
    &&& forall|t: int|
        0 <= t < histories.len() ==> (#[trigger] histories[t]).wf() && steps <= histories[t].rows()
            && histories[t].rows() - steps <= u32::MAX && histories[t].rows() <= usize::MAX
}

/// Every window lies within its history.
pub open spec fn windows_within<N>(
    histories: Seq<HistoryView<N>>,
    windows: Seq<(u32, u32)>,
    steps: nat,
) -> bool {
    forall|w: int|
        0 <= w < windows.len() ==> window_within(histories, #[trigger] windows[w], steps)
}

/// The window lies within its history.
pub open spec fn window_within<N>(
    histories: Seq<HistoryView<N>>,
    window: (u32, u32),
    steps: nat,
) -> bool {
    window.0 < histories.len() && window.1 + steps <= histories[window.0 as int].rows()
}

impl<N> StockDataLoader<N> {
    /// The histories as plain sequences.
    pub open spec fn histories(&self) -> Seq<HistoryView<N>> {
        history_views(self.tickers@)
    }

    /// The histories are ready, the windows lie within them, and no name has two codes.
    pub open spec fn fits(&self) -> bool {
        &&& histories_ready(self.histories(), self.steps as nat)
        &&& windows_within(self.histories(), self.windows@, self.steps as nat)
        &&& distinct_codes(self.industry_codes@)
    }

    /// The loader fits its data, and neither windows nor batches are empty.
    pub open spec fn wf(&self) -> bool {
        &&& self.steps > 0
        &&& self.batch_size > 0
        &&& self.fits()
    }

    /// The pool of every window of the histories, in ticker-then-date order.
    pub open spec fn pool(&self) -> Seq<(u32, u32)> {
        window_pool(history_rows(self.histories()), self.steps as nat)
    }

    /// How many batches the whole pool fills, the last one possibly short.
    pub open spec fn pool_batches(&self) -> nat {
        (self.windows@.len() + self.batch_size - 1) as nat / self.batch_size as nat
    }

    /// How many batches one epoch yields.
    pub open spec fn batches(&self) -> nat {
        let available = if self.pool_batches() >= self.batch_offset {
            (self.pool_batches() - self.batch_offset) as nat
        } else {
            0
        };
        match self.max_batches {
            Some(cap) if cap < available => cap as nat,
            _ => available,
        }
    }

    /// Everything but the tickers, the pool, and the walk over it is that of `other`.
    pub open spec fn same_setup(&self, other: StockDataLoader<N>) -> bool {
        &&& self.steps == other.steps
        &&& self.batch_size == other.batch_size
        &&& self.seed == other.seed
        &&& self.n_industries == other.n_industries
        &&& same_codes(self.industry_codes@, other.industry_codes@)
    }
}

/// The two lists give the same names the same codes, in the same order.
pub open spec fn same_codes(a: Seq<IndustryCode>, b: Seq<IndustryCode>) -> bool {
    &&& a.len() == b.len()
    &&& forall|i: int|
        #![trigger a[i]]
        #![trigger b[i]]
        0 <= i < a.len() ==> a[i].name@ == b[i].name@ && a[i].code == b[i].code
}

/// The windows of ready histories lie within them.
proof fn lemma_pool_within<N>(histories: Seq<HistoryView<N>>, steps: nat)
    requires
        histories_ready(histories, steps),
    ensures
        pool_fits(history_rows(histories), steps),
        windows_within(histories, window_pool(history_rows(histories), steps), steps),
{
    let rows = history_rows(histories);
    assert forall|t: int| 0 <= t < rows.len() && #[trigger] rows[t] >= steps implies t <= u32::MAX
        && rows[t] - steps <= u32::MAX by {
        assert(histories[t].wf());
        assert(rows[t] == histories[t].rows() as usize);
    }
    let pool = window_pool(rows, steps);
    assert forall|w: int| 0 <= w < pool.len() implies window_within(
        histories,
        #[trigger] pool[w],
        steps,
    ) by {
        pool_holds_every_window(rows, steps, pool[w].0, pool[w].1);
        assert(pool.contains(pool[w]));
        let t = pool[w].0 as int;
        assert(histories[t].wf());
        assert(rows[t] == histories[t].rows() as usize);
    }
}

/// A copy of the codes.
fn copy_codes(codes: &Vec<IndustryCode>) -> (copy: Vec<IndustryCode>)
    ensures
        same_codes(copy@, codes@),
{
    let mut copy: Vec<IndustryCode> = Vec::new();
    let mut at: usize = 0;
    while at < codes.len()
        invariant
            at <= codes.len(),
            copy@.len() == at,
            forall|i: int|
                0 <= i < at ==> (#[trigger] copy@[i]).name@ == codes@[i].name@ && copy@[i].code
                    == codes@[i].code,
        decreases codes.len() - at,
    {
        copy.push(IndustryCode { name: codes[at].name.clone(), code: codes[at].code });
        at = at + 1;
    }
    copy
}

/// A copy of the histories.
fn copy_histories<N: Copy>(histories: &Vec<History<N>>) -> (copy: Vec<History<N>>)
    ensures
        history_views(copy@) == history_views(histories@),
{
    let mut copy: Vec<History<N>> = Vec::new();
    let mut at: usize = 0;
    while at < histories.len()
        invariant
            at <= histories.len(),
            history_views(copy@) =~= history_views(histories@).take(at as int),
        decreases histories.len() - at,
    {
        let ghost before = history_views(copy@);
        let history = histories[at].duplicate();
        copy.push(history);
        assert(history_views(copy@) =~= before.push(history@));
        at = at + 1;
    }
    assert(history_views(copy@) =~= history_views(histories@));
    copy
}

proof fn lemma_same_codes_distinct(a: Seq<IndustryCode>, b: Seq<IndustryCode>)
    requires
        same_codes(a, b),
        distinct_codes(b),
    ensures
        distinct_codes(a),
{
    assert forall|i: int, j: int|
        #![trigger a[i], a[j]]
        0 <= i < j < a.len() implies a[i].name@ != a[j].name@ by {
        assert(b[i].name@ != b[j].name@);
    }
}

impl<N: Number> StockDataLoader<N> {
    /// A copy of the loader.
    fn duplicate(&self) -> (copy: Self)
        requires
            self.fits(),
        ensures
            copy.fits(),
            copy.same_setup(*self),
            copy.histories() == self.histories(),
            copy.sampling == self.sampling,
            copy.windows@ == self.windows@,
            copy.max_batches == self.max_batches,
            copy.batch_offset == self.batch_offset,
    {
        let industry_codes = copy_codes(&self.industry_codes);
        proof {
            lemma_same_codes_distinct(industry_codes@, self.industry_codes@);
        }
        StockDataLoader {
            tickers: copy_histories(&self.tickers),
            steps: self.steps,
            batch_size: self.batch_size,
            seed: self.seed,
            sampling: self.sampling,
            windows: copy_all(&self.windows),
            max_batches: self.max_batches,
            batch_offset: self.batch_offset,
            industry_codes,
            n_industries: self.n_industries,
        }
    }

    /// The loader over other tickers, its pool rebuilt.
    fn with_tickers(&self, tickers: Vec<History<N>>) -> (loader: Self)
        requires
            self.fits(),
            histories_ready(history_views(tickers@), self.steps as nat),
        ensures
            loader.fits(),
            loader.same_setup(*self),
            loader.tickers == tickers,
            loader.windows@ == loader.pool(),
            loader.sampling == self.sampling,
            loader.max_batches == self.max_batches,
            loader.batch_offset == self.batch_offset,
    {
        proof {
            lemma_pool_within(history_views(tickers@), self.steps as nat);
        }
        let windows = enumerate_windows(&count_rows(&tickers), self.steps);
        let industry_codes = copy_codes(&self.industry_codes);
        proof {
            lemma_same_codes_distinct(industry_codes@, self.industry_codes@);
        }
        StockDataLoader {
            tickers,
            steps: self.steps,
            batch_size: self.batch_size,
            seed: self.seed,
            sampling: self.sampling,
            windows,
            max_batches: self.max_batches,
            batch_offset: self.batch_offset,
            industry_codes,
            n_industries: self.n_industries,
        }
    }

    /// Switch the loader to a deterministic fixed sweep over the whole window pool, used for
    /// validation so the metric is stable across epochs. Clears any virtual-epoch cap so one
    /// pass covers every window.
    pub fn into_fixed(self) -> (loader: Self)
        requires
            self.fits(),
        ensures
            loader.fits(),
            loader.same_setup(self),
            loader.tickers == self.tickers,
            loader.windows == self.windows,
            loader.sampling == Sampling::Fixed,
            loader.max_batches is None,
            loader.batch_offset == 0,
    {
        let mut loader = self;
        loader.sampling = Sampling::Fixed;
        loader.max_batches = None;
        loader.batch_offset = 0;
        loader
    }

    /// Shuffle the window pool once with a fixed `seed` and keep the first `max_batches`
    /// batches as a representative validation subsample. The pool is shuffled once, not per
    /// epoch, so the metric stays comparable across epochs.
    pub fn into_subsample(self, max_batches: Option<usize>, seed: u64) -> (loader: Self)
        requires
            self.fits(),
        ensures
            loader.fits(),
            loader.same_setup(self),
            loader.tickers == self.tickers,
            shuffled_by(
                self.windows@,
                shuffle_order(usize::BITS, seed, self.windows@.len()),
                loader.windows@,
            ),
            loader.sampling == Sampling::Fixed,
            loader.max_batches == max_batches,
            loader.batch_offset == 0,
    {
        let mut loader = self;
        shuffle_with_seed(&mut loader.windows, seed);
        loader.sampling = Sampling::Fixed;
        loader.max_batches = max_batches;
        loader.batch_offset = 0;
        proof {
            let order = shuffle_order(usize::BITS, seed, self.windows@.len());
            assert forall|w: int| 0 <= w < loader.windows@.len() implies window_within(
                self.histories(),
                #[trigger] loader.windows@[w],
                self.steps as nat,
            ) by {
                assert(0 <= order[w] < self.windows@.len());
                assert(loader.windows@[w] == self.windows@[order[w]]);
            }
        }
        loader
    }

    /// One-hot width of the industry feature, needed to size the model's categorical branch.
    pub fn n_industries(&self) -> (width: usize)
        ensures
            width == self.n_industries,
    {
        self.n_industries
    }

    /// Number of batches one epoch yields, honoring both the offset from a slice and the
    /// virtual-epoch cap.
    pub fn batch_count(&self) -> (count: usize)
        requires
            self.batch_size > 0,
        ensures
            count == self.batches(),
    {
        let windows = self.windows.len();
        let size = self.batch_size;
        let total: usize = if windows == 0 {
            0
        } else {
            (windows - 1) / size + 1
        };
        proof {
            lemma_ceiling(windows as int, size as int);
        }
        let available: usize = if total >= self.batch_offset {
            total - self.batch_offset
        } else {
            0
        };
        match self.max_batches {
            Some(cap) => if cap < available {
                cap
            } else {
                available
            },
            None => available,
        }
    }

    /// Number of batches one epoch yields.
    pub fn num_items(&self) -> (count: usize)
        requires
            self.batch_size > 0,
        ensures
            count == self.batches(),
    {
        self.batch_count()
    }

    /// The batches from `start` up to `end` of an epoch, as a loader of their own.
    pub fn slice(&self, start: usize, end: usize) -> (shard: Self)
        requires
            self.fits(),
            self.batch_size > 0,
            start <= end <= self.batches(),
        ensures
            shard.fits(),
            self.wf() ==> shard.wf(),
            shard.same_setup(*self),
            shard.histories() == self.histories(),
            shard.windows@ == self.windows@,
            shard.sampling == self.sampling,
            shard.batch_offset == self.batch_offset + start,
            shard.max_batches == Some((end - start) as usize),
            shard.batches() == end - start,
    {
        let count = self.batch_count();
        let windows = self.windows.len();
        proof {
            lemma_ceiling(windows as int, self.batch_size as int);
            lemma_ceiling_bound(windows as int, self.batch_size as int);
        }
        let mut shard = self.duplicate();
        shard.batch_offset = self.batch_offset + start;
        shard.max_batches = Some(end - start);
        shard
    }
}

/// The quotient rounded up, by way of the quotient of one less.
proof fn lemma_ceiling(count: int, size: int)
    requires
        0 <= count,
        0 < size,
    ensures
        (count + size - 1) / size == (if count == 0 {
            0
        } else {
            (count - 1) / size + 1
        }),
{
    if count == 0 {
        vstd::arithmetic::div_mod::lemma_basic_div(size - 1, size);
    } else {
        assert((count - 1 + size) / size == (count - 1) / size + 1) by {
            vstd::arithmetic::div_mod::lemma_div_plus_one(count - 1, size);
        }
    }
}

/// The quotient rounded up is at most the dividend.
proof fn lemma_ceiling_bound(count: int, size: int)
    requires
        0 <= count,
        0 < size,
    ensures
        0 <= (count + size - 1) / size <= count,
{
    lemma_ceiling(count, size);
    if count > 0 {
        vstd::arithmetic::div_mod::lemma_div_is_ordered_by_denominator(count - 1, 1, size);
        vstd::arithmetic::div_mod::lemma_div_basics(count - 1);
        vstd::arithmetic::div_mod::lemma_div_pos_is_pos(count - 1, size);
    }
}

/// The indices below `len`, in order.
pub open spec fn identity(len: nat) -> Seq<u32> {
    Seq::new(len, |i: int| i as u32)
}

/// `order` lists every index below `len` once.
pub open spec fn is_index_order(order: Seq<u32>, len: nat) -> bool {
    is_order(order.map_values(|index: u32| index as int), len)
}

/// One batch in row-major buffers, ready to be uploaded as tensors.
pub struct StockBatch<N> {
    /// Shape `[batch_size, steps, ohlcv_features]`.
    pub technical: Vec<N>,
    /// Shape `[batch_size, ticker_features]`.
    pub ticker: Vec<u8>,
    /// Shape `[batch_size]`, class index 0/1/2.
    pub label: Vec<i32>,
}

/// `technical` holds the normalized windows of `selection`, one after the other.
pub open spec fn normalized_windows<N: Number>(
    histories: Seq<HistoryView<N>>,
    selection: Seq<(u32, u32)>,
    steps: nat,
    technical: Seq<N>,
) -> bool
    decreases selection.len(),
{
    if selection.len() == 0 {
        technical.len() == 0
    } else {
        let (ticker, start) = selection.last();
        let window = histories[ticker as int].window(start as int, steps as int);
        exists|earlier: Seq<N>, last: Seq<N>|
            {
                &&& normalized_windows(histories, selection.drop_last(), steps, earlier)
                &&& #[trigger] normalized_is(window, steps, last)
                &&& technical == #[trigger] (earlier + last)
            }
    }
}

/// The label of the last day of each window.
pub open spec fn window_labels<N>(
    histories: Seq<HistoryView<N>>,
    selection: Seq<(u32, u32)>,
    steps: nat,
) -> Seq<i32> {
    Seq::new(
        selection.len(),
        |b: int| histories[selection[b].0 as int].labels[selection[b].1 + steps - 1] as i32,
    )
}

/// The industry bucket of each window's ticker: its code, or the last bucket.
pub open spec fn window_buckets<N>(
    histories: Seq<HistoryView<N>>,
    selection: Seq<(u32, u32)>,
    codes: Seq<IndustryCode>,
    n_industries: nat,
) -> Seq<usize> {
    Seq::new(
        selection.len(),
        |b: int|
            match code_of(codes, histories[selection[b].0 as int].name) {
                Some(code) => code as usize,
                None => (n_industries - 1) as usize,
            },
    )
}

impl<N: Number> StockDataLoader<N> {
    /// `batch` is the batch of the windows in `selection`.
    pub open spec fn assembled(
        &self,
        selection: Seq<(u32, u32)>,
        batch: StockBatch<N>,
    ) -> bool {
        &&& normalized_windows(
            self.histories(),
            selection,
            self.steps as nat,
            batch.technical@,
        )
        &&& batch.label@ == window_labels(self.histories(), selection, self.steps as nat)
        &&& batch.ticker@ == (if self.n_industries == 0 {
            Seq::empty()
        } else {
            one_hot_rows(
                window_buckets(
                    self.histories(),
                    selection,
                    self.industry_codes@,
                    self.n_industries as nat,
                ),
                self.n_industries as nat,
            )
        })
    }

    /// `order` is a window order of the epoch with number `epoch`: the pool's own in a fixed
    /// sweep; otherwise a shuffle of it, which the seed and the epoch determine if there is
    /// a seed.
    pub open spec fn epoch_order_is(&self, epoch: u64, order: Seq<u32>) -> bool {
        let pool = identity(self.windows@.len());
        match (self.sampling, self.seed) {
            (Sampling::Fixed, _) => order == pool,
            (Sampling::Shuffle, Some(seed)) => shuffled_by(
                pool,
                shuffle_order(usize::BITS, mixed_seed(seed, epoch), pool.len()),
                order,
            ),
            (Sampling::Shuffle, None) => exists|drawn: Seq<int>| shuffled_by(pool, drawn, order),
        }
    }

    /// Build the window order for the next epoch. A shuffling loader advances the counter
    /// and reshuffles the pool from a per-epoch seed, so each pass differs while a fixed base
    /// seed keeps the whole run reproducible. A fixed sweep walks the pool in its natural
    /// order.
    pub fn epoch_order(&self, epochs: &mut EpochCounter) -> (order: Vec<u32>)
        requires
            self.windows@.len() <= u32::MAX,
        ensures
            self.epoch_order_is(old(epochs).next, order@),
            final(epochs).next == advanced(self.sampling, old(epochs).next),
    {
        let mut order: Vec<u32> = Vec::new();
        let mut at: usize = 0;
        while at < self.windows.len()
            invariant
                at <= self.windows@.len() <= u32::MAX,
                order@ =~= identity(at as nat),
            decreases self.windows.len() - at,
        {
            order.push(at as u32);
            at = at + 1;
        }
        if self.sampling == Sampling::Shuffle {
            let epoch = epochs.next;
            epochs.next = epoch.wrapping_add(1);
            match self.seed {
                Some(seed) => {
                    shuffle_with_seed(&mut order, splitmix64(seed, epoch));
                },
                None => {
                    shuffle_unseeded(&mut order);
                },
            }
        }
        order
    }

    /// One-hot encode the industry of each selected ticker. Without industries attached this
    /// stays empty. Tickers without a code fall into the trailing unknown bucket.
    fn one_hot_industries(&self, selection: &Vec<(u32, u32)>) -> (data: Vec<u8>)
        requires
            self.wf(),
            windows_within(self.histories(), selection@, self.steps as nat),
        ensures
            data@ == (if self.n_industries == 0 {
                Seq::empty()
            } else {
                one_hot_rows(
                    window_buckets(
                        self.histories(),
                        selection@,
                        self.industry_codes@,
                        self.n_industries as nat,
                    ),
                    self.n_industries as nat,
                )
            }),
    {
        if self.n_industries == 0 {
            return Vec::new();
        }
        let unknown: usize = self.n_industries - 1;
        let mut buckets: Vec<usize> = Vec::new();
        let mut row: usize = 0;
        let ghost expected = window_buckets(
            self.histories(),
            selection@,
            self.industry_codes@,
            self.n_industries as nat,
        );
        while row < selection.len()
            invariant
                row <= selection.len(),
                self.wf(),
                self.n_industries > 0,
                unknown == self.n_industries - 1,
                windows_within(self.histories(), selection@, self.steps as nat),
                expected == window_buckets(
                    self.histories(),
                    selection@,
                    self.industry_codes@,
                    self.n_industries as nat,
                ),
                buckets@ =~= expected.take(row as int),
            decreases selection.len() - row,
        {
            assert(window_within(self.histories(), selection@[row as int], self.steps as nat));
            let (ticker_index, _) = selection[row];
            let name = &self.tickers[ticker_index as usize].name;
            assert(self.histories()[ticker_index as int].name == name@);
            let code = code_or(&self.industry_codes, name, unknown);
            buckets.push(code);
            assert(expected[row as int] == code);
            row = row + 1;
        }
        assert(expected.take(row as int) =~= expected);
        encode_one_hot(&buckets, self.n_industries)
    }

    /// Slice each chosen window, normalize it, and pack the batch.
    pub fn assemble(&self, selection: &Vec<(u32, u32)>) -> (batch: StockBatch<N>)
        requires
            self.wf(),
            windows_within(self.histories(), selection@, self.steps as nat),
        ensures
            self.assembled(selection@, batch),
    {
        let mut technical: Vec<N> = Vec::new();
        let mut label: Vec<i32> = Vec::new();
        let mut row: usize = 0;
        let ghost expected = window_labels(self.histories(), selection@, self.steps as nat);
        while row < selection.len()
            invariant
                row <= selection.len(),
                self.wf(),
                windows_within(self.histories(), selection@, self.steps as nat),
                normalized_windows(
                    self.histories(),
                    selection@.take(row as int),
                    self.steps as nat,
                    technical@,
                ),
                expected == window_labels(self.histories(), selection@, self.steps as nat),
                label@ =~= expected.take(row as int),
            decreases selection.len() - row,
        {
            let ghost earlier = technical@;
            assert(window_within(self.histories(), selection@[row as int], self.steps as nat));
            let (ticker_index, begin) = selection[row];
            let ticker = &self.tickers[ticker_index as usize];
            assert(self.histories()[ticker_index as int] == ticker@);
            let start: usize = begin as usize;
            let rows = ticker.rows();
            assert(start + self.steps <= rows);
            // The window is a contiguous span of the flat OHLCV buffer; copy it out and
            // normalize that copy in place.
            let mut flat = ticker.window(start, self.steps);
            let ghost window = flat@;
            normalize_window(&mut flat, self.steps);
            let ghost last = flat@;
            technical.append(&mut flat);
            // The label is the action on the window's last day.
            label.push(ticker.labels[start + self.steps - 1] as i32);
            proof {
                let longer = selection@.take(row + 1);
                assert(longer.drop_last() =~= selection@.take(row as int));
                assert(longer.last() == (ticker_index, begin));
                assert(normalized_is(window, self.steps as nat, last));
                assert(technical@ == earlier + last);
                assert(normalized_windows(
                    self.histories(),
                    longer,
                    self.steps as nat,
                    technical@,
                ));
                assert(expected[row as int] == label@[row as int]);
            }
            row = row + 1;
        }
        assert(selection@.take(row as int) =~= selection@);
        assert(expected.take(row as int) =~= expected);
        let ticker = self.one_hot_industries(selection);
        StockBatch { technical, ticker, label }
    }

    /// The walk over one epoch's batches.
    pub fn iter(&self, epochs: &mut EpochCounter) -> (walk: StockIterator<'_, N>)
        requires
            self.wf(),
            self.windows@.len() <= u32::MAX,
        ensures
            walk.wf(),
            walk.loader == self,
            self.epoch_order_is(old(epochs).next, walk.order@),
            final(epochs).next == advanced(self.sampling, old(epochs).next),
            walk.batch == 0,
    {
        let ghost epoch = epochs.next;
        let order = self.epoch_order(epochs);
        proof {
            self.epoch_visits_every_window(epoch, order@);
        }
        StockIterator { loader: self, order, batch: 0, num_batches: self.batch_count() }
    }

    /// Every epoch's order lists every window once.
    pub proof fn epoch_visits_every_window(&self, epoch: u64, order: Seq<u32>)
        requires
            self.epoch_order_is(epoch, order),
            self.windows@.len() <= u32::MAX,
        ensures
            is_index_order(order, self.windows@.len()),
    {
        let pool = identity(self.windows@.len());
        let indices = order.map_values(|index: u32| index as int);
        match (self.sampling, self.seed) {
            (Sampling::Fixed, _) => {},
            (Sampling::Shuffle, Some(seed)) => {
                let drawn = shuffle_order(usize::BITS, mixed_seed(seed, epoch), pool.len());
                assert forall|i: int| 0 <= i < pool.len() implies #[trigger] indices[i]
                    == drawn[i] by {
                    assert(0 <= drawn[i] < pool.len());
                }
            },
            (Sampling::Shuffle, None) => {
                let drawn = choose|drawn: Seq<int>| shuffled_by(pool, drawn, order);
                assert forall|i: int| 0 <= i < pool.len() implies #[trigger] indices[i]
                    == drawn[i] by {
                    assert(0 <= drawn[i] < pool.len());
                }
            },
        }
        assert(indices.len() == pool.len());
    }
}

/// A walk over one epoch's batches.
pub struct StockIterator<'a, N> {
    pub loader: &'a StockDataLoader<N>,
    /// Window indices into the loader's pool for this epoch, already ordered by the sampling
    /// mode.
    pub order: Vec<u32>,
    /// Batch cursor, up to `num_batches`.
    pub batch: usize,
    pub num_batches: usize,
}

/// How far a walk has come.
#[derive(Clone, Copy, Debug, PartialEq, Eq, Structural)]
pub struct Progress {
    pub items_processed: usize,
    pub items_total: usize,
}

impl<'a, N> StockIterator<'a, N> {
    /// The order lists every window of the loader once, and the cursor is in range.
    pub open spec fn wf(&self) -> bool {
        &&& self.loader.wf()
        &&& is_index_order(self.order@, self.loader.windows@.len())
        &&& self.num_batches == self.loader.batches()
        &&& self.batch <= self.num_batches
    }

    /// Where in the order batch `batch` begins.
    pub open spec fn begin(&self, batch: nat) -> int {
        (self.loader.batch_offset + batch) * self.loader.batch_size
    }

    /// Where in the order batch `batch` ends.
    pub open spec fn end(&self, batch: nat) -> int {
        if self.begin(batch) + self.loader.batch_size <= self.order@.len() {
            self.begin(batch) + self.loader.batch_size
        } else {
            self.order@.len() as int
        }
    }

    /// The windows of batch `batch`.
    pub open spec fn selection(&self, batch: nat) -> Seq<(u32, u32)> {
        Seq::new(
            (self.end(batch) - self.begin(batch)) as nat,
            |i: int| self.loader.windows@[self.order@[self.begin(batch) + i] as int],
        )
    }
}

/// A batch that an epoch yields begins within the order.
proof fn lemma_batch_begins<'a, N>(walk: StockIterator<'a, N>, batch: nat)
    requires
        walk.wf(),
        batch < walk.num_batches,
    ensures
        0 <= walk.begin(batch) < walk.order@.len(),
        walk.begin(batch) < walk.end(batch) <= walk.order@.len(),
        walk.loader.batch_offset + batch < walk.loader.pool_batches(),
{
    let count = walk.order@.len() as int;
    let size = walk.loader.batch_size as int;
    let place = walk.loader.batch_offset + batch;
    lemma_ceiling(count, size);
    assert(place <= (count - 1) / size);
    assert(place * size <= count - 1) by {
        vstd::arithmetic::div_mod::lemma_fundamental_div_mod(count - 1, size);
        assert(place * size <= ((count - 1) / size) * size) by (nonlinear_arith)
            requires
                place <= (count - 1) / size,
                size > 0,
        ;
        assert(((count - 1) / size) * size == size * ((count - 1) / size)) by (nonlinear_arith);
    }
    assert(0 <= place * size) by (nonlinear_arith)
        requires
            0 <= place,
            0 < size,
    ;
}

impl<'a, N: Number> StockIterator<'a, N> {
    /// Bounds on the number of batches that are left, which are the number itself.
    pub fn size_hint(&self) -> (bounds: (usize, Option<usize>))
        requires
            self.wf(),
        ensures
            bounds.0 == self.num_batches - self.batch,
            bounds.1 == Some(bounds.0),
    {
        let remaining: usize = self.num_batches - self.batch;
        (remaining, Some(remaining))
    }

    /// Assemble the next batch, if there is one left.
    pub fn next(&mut self) -> (item: Option<StockBatch<N>>)
        requires
            old(self).wf(),
        ensures
            final(self).wf(),
            final(self).loader == old(self).loader,
            final(self).order == old(self).order,
            final(self).num_batches == old(self).num_batches,
            old(self).batch >= old(self).num_batches ==> item is None && final(self).batch
                == old(self).batch,
            old(self).batch < old(self).num_batches ==> {
                &&& final(self).batch == old(self).batch + 1
                &&& item matches Some(batch) && old(self).loader.assembled(
                    old(self).selection(old(self).batch as nat),
                    batch,
                )
            },
    {
        if self.batch >= self.num_batches {
            return None;
        }
        let ghost walk = *self;
        let ghost current = self.batch as nat;
        proof {
            lemma_batch_begins(walk, current);
            lemma_ceiling_bound(walk.order@.len() as int, walk.loader.batch_size as int);
        }
        let windows = self.loader.windows.len();
        let length = self.order.len();
        let batch_size = self.loader.batch_size;
        let order_start: usize = (self.loader.batch_offset + self.batch) * batch_size;
        let order_end: usize = if batch_size <= length - order_start {
            order_start + batch_size
        } else {
            length
        };
        let mut selection: Vec<(u32, u32)> = Vec::new();
        let mut at: usize = order_start;
        while at < order_end
            invariant
                *self == walk,
                walk.wf(),
                order_start == walk.begin(current),
                order_end == walk.end(current),
                order_start <= at <= order_end <= walk.order@.len(),
                selection@ =~= walk.selection(current).take(at - order_start),
                windows_within(walk.loader.histories(), selection@, walk.loader.steps as nat),
            decreases order_end - at,
        {
            proof {
                let indices = walk.order@.map_values(|index: u32| index as int);
                assert(0 <= indices[at as int] < walk.loader.windows@.len());
            }
            let window = self.order[at] as usize;
            assert(window_within(
                walk.loader.histories(),
                walk.loader.windows@[window as int],
                walk.loader.steps as nat,
            ));
            selection.push(self.loader.windows[window]);
            at = at + 1;
        }
        assert(selection@ =~= walk.selection(current));
        self.batch = self.batch + 1;
        Some(self.loader.assemble(&selection))
    }

    /// How far the walk has come.
    pub fn progress(&self) -> (progress: Progress)
        ensures
            progress.items_processed == self.batch,
            progress.items_total == self.num_batches,
    {
        Progress { items_processed: self.batch, items_total: self.num_batches }
    }
}

/// An epoch without an offset and without a cap visits every place of its order, in exactly
/// one batch.
pub proof fn full_epoch_visits_every_place<'a, N>(walk: StockIterator<'a, N>, place: int)
    requires
        walk.wf(),
        walk.loader.batch_offset == 0,
        walk.loader.max_batches is None,
        0 <= place < walk.order@.len(),
    ensures
        ({
            let batch = (place / walk.loader.batch_size as int) as nat;
            &&& batch < walk.num_batches
            &&& walk.begin(batch) <= place < walk.end(batch)
            &&& forall|other: nat|
                other < walk.num_batches && #[trigger] walk.begin(other) <= place < walk.end(other)
                    ==> other == batch
        }),
{
    let size = walk.loader.batch_size as int;
    let count = walk.order@.len() as int;
    vstd::arithmetic::div_mod::lemma_div_pos_is_pos(place, size);
    let batch = (place / size) as nat;
    lemma_ceiling(count, size);
    vstd::arithmetic::div_mod::lemma_div_is_ordered(place, count - 1, size);
    vstd::arithmetic::div_mod::lemma_fundamental_div_mod(place, size);
    vstd::arithmetic::div_mod::lemma_mod_bound(place, size);
    assert(batch * size == size * (place / size)) by (nonlinear_arith)
        requires
            batch == place / size,
    ;
    assert((0 + batch) * size == batch * size) by (nonlinear_arith);
    assert forall|other: nat|
        other < walk.num_batches && #[trigger] walk.begin(other) <= place < walk.end(
            other,
        ) implies other == batch by {
        assert((0 + other) * size == other * size) by (nonlinear_arith);
        if other < batch {
            assert(other * size + size <= batch * size) by (nonlinear_arith)
                requires
                    other + 1 <= batch,
                    size > 0,
            ;
        } else if batch < other {
            assert(batch * size + size <= other * size) by (nonlinear_arith)
                requires
                    batch + 1 <= other,
                    size > 0,
            ;
        }
    }
}

/// Walking a slice in the loader's order yields the loader's own batches from `start` on.
pub proof fn slice_yields_the_loaders_batches<'a, 'b, N>(
    walk: StockIterator<'a, N>,
    part: StockIterator<'b, N>,
    start: nat,
    batch: nat,
)
    requires
        walk.wf(),
        part.wf(),
        part.loader.batch_size == walk.loader.batch_size,
        part.loader.windows@ == walk.loader.windows@,
        part.loader.batch_offset == walk.loader.batch_offset + start,
        part.order@ == walk.order@,
        batch < part.num_batches,
    ensures
        part.selection(batch) == walk.selection(start + batch),
{
    assert(part.begin(batch) == walk.begin(start + batch));
    assert(part.selection(batch) =~= walk.selection(start + batch));
}

/// One ticker's OHLCV columns as [`grouping::group_rows`] parts them from a table, in date
/// order, with its labels. Those are one short, since the last row has no forward window.
pub struct OhlcvGroup<N> {
    pub name: String,
    pub dates: Vec<i32>,
    /// Row-major OHLCV, five per row.
    pub features: Vec<N>,
    pub labels: Vec<u8>,
}

impl<N> OhlcvGroup<N> {
    /// The columns have one entry per row, labels one fewer, and the dates ascend.
    pub open spec fn wf(&self) -> bool {
        &&& self.features@.len() == self.dates@.len() * FEATURES
        &&& self.dates@.len() > 0 ==> self.labels@.len() == self.dates@.len() - 1
        &&& ascending(self.dates@)
    }

    /// A ticker's columns with its labels.
    pub fn new(columns: OhlcvColumns<N>, labels: Vec<u8>) -> (group: Self)
        ensures
            group.name == columns.name,
            group.dates == columns.dates,
            group.features == columns.features,
            group.labels == labels,
    {
        OhlcvGroup {
            name: columns.name,
            dates: columns.dates,
            features: columns.features,
            labels,
        }
    }
}

/// The histories of groups: each without its last row; one without more than `steps` rows
/// yields nothing.
pub open spec fn loaded_histories<N>(groups: Seq<OhlcvGroup<N>>, steps: nat) -> Seq<HistoryView<N>>
    decreases groups.len(),
{
    if groups.len() == 0 {
        Seq::empty()
    } else {
        let earlier = loaded_histories(groups.drop_last(), steps);
        let group = groups.last();
        let rows = group.dates@.len() - 1;
        if group.dates@.len() <= steps {
            earlier
        } else {
            earlier.push(
                HistoryView {
                    name: group.name@,
                    dates: group.dates@.take(rows),
                    features: group.features@.take(rows * FEATURES),
                    labels: group.labels@,
                },
            )
        }
    }
}

/// The histories that a draw of `count` with `seed` keeps: all of them if there are no more,
/// those at the drawn indices otherwise.
pub open spec fn sampled_histories<N>(
    histories: Seq<HistoryView<N>>,
    count: usize,
    seed: u64,
) -> Seq<HistoryView<N>> {
    if count >= histories.len() {
        histories
    } else {
        let drawn = chosen_indices(usize::BITS, seed, histories.len(), count as nat);
        Seq::new(drawn.len(), |i: int| histories[drawn[i] as int])
    }
}

/// The date columns of the histories.
pub open spec fn history_dates<N>(histories: Seq<HistoryView<N>>) -> Seq<Seq<i32>> {
    histories.map_values(|history: HistoryView<N>| history.dates)
}

impl<N: Number> StockDataLoader<N> {
    /// One flat history per group, its label-less last row dropped. Tickers with fewer than
    /// `steps` rows left are discarded. `max_batches` caps how many batches one epoch
    /// yields, or `None` for a full pass over every window.
    pub fn load(
        groups: &Vec<OhlcvGroup<N>>,
        steps: usize,
        batch_size: usize,
        max_batches: Option<usize>,
        seed: Option<u64>,
    ) -> (loader: Self)
        requires
            groups@.len() <= u32::MAX + 1,
            forall|g: int| 0 <= g < groups@.len() ==> (#[trigger] groups@[g]).wf(),
            forall|g: int|
                0 <= g < groups@.len() ==> (#[trigger] groups@[g]).dates@.len() <= u32::MAX + steps
                    + 1,
        ensures
            loader.fits(),
            steps > 0 && batch_size > 0 ==> loader.wf(),
            loader.histories() == loaded_histories(groups@, steps as nat),
            loader.windows@ == loader.pool(),
            loader.steps == steps,
            loader.batch_size == batch_size,
            loader.max_batches == max_batches,
            loader.seed == seed,
            loader.sampling == Sampling::Shuffle,
            loader.batch_offset == 0,
            loader.industry_codes@.len() == 0,
            loader.n_industries == 0,
    {
        let mut tickers: Vec<History<N>> = Vec::new();
        let mut at: usize = 0;
        assert(history_views(tickers@) =~= Seq::<HistoryView<N>>::empty());
        while at < groups.len()
            invariant
                at <= groups@.len() <= u32::MAX + 1,
                forall|g: int| 0 <= g < groups@.len() ==> (#[trigger] groups@[g]).wf(),
                forall|g: int|
                    0 <= g < groups@.len() ==> (#[trigger] groups@[g]).dates@.len() <= u32::MAX
                        + steps + 1,
                tickers@.len() <= at,
                history_views(tickers@) == loaded_histories(
                    groups@.take(at as int),
                    steps as nat,
                ),
                histories_ready(history_views(tickers@), steps as nat),
            decreases groups.len() - at,
        {
            let ghost before = history_views(tickers@);
            assert(groups@[at as int].wf());
            assert(groups@[at as int].dates@.len() <= u32::MAX + steps + 1);
            assert(groups@.take(at + 1).drop_last() =~= groups@.take(at as int));
            let group = &groups[at];
            let height = group.dates.len();
            let width = group.features.len();
            // The last row has no forward window, so a usable ticker needs more than `steps`
            // rows to keep at least `steps` after trimming it.
            if height > steps {
                let rows: usize = height - 1;
                assert(rows * FEATURES <= height * FEATURES) by (nonlinear_arith)
                    requires
                        rows <= height,
                ;
                let history = History {
                    name: group.name.clone(),
                    dates: copy_range(&group.dates, 0, rows),
                    features: copy_range(&group.features, 0, rows * FEATURES),
                    labels: copy_all(&group.labels),
                };
                proof {
                    let expected = HistoryView {
                        name: group.name@,
                        dates: group.dates@.take(rows as int),
                        features: group.features@.take(rows * FEATURES),
                        labels: group.labels@,
                    };
                    assert(history@ =~= expected);
                    assert forall|i: int, j: int|
                        #![trigger history@.dates[i], history@.dates[j]]
                        0 <= i < j < rows implies history@.dates[i] <= history@.dates[j] by {
                        assert(group.dates@[i] <= group.dates@[j]);
                    }
                    assert(history@.wf());
                }
                tickers.push(history);
                assert(history_views(tickers@) =~= before.push(history@));
            }
            at = at + 1;
        }
        assert(groups@.take(at as int) =~= groups@);
        proof {
            lemma_pool_within(history_views(tickers@), steps as nat);
        }
        let windows = enumerate_windows(&count_rows(&tickers), steps);
        StockDataLoader {
            tickers,
            steps,
            batch_size,
            seed,
            sampling: Sampling::Shuffle,
            windows,
            max_batches,
            batch_offset: 0,
            industry_codes: Vec::new(),
            n_industries: 0,
        }
    }

    /// Attach the industry categorical feature. Distinct industries get stable indices in
    /// sorted order, and a final bucket absorbs every ticker whose industry is missing.
    pub fn attach_industries(
        self,
        names: &Vec<Option<String>>,
        industries: &Vec<Option<String>>,
    ) -> (loader: Self)
        requires
            self.fits(),
            names@.len() == industries@.len(),
            industries@.len() < usize::MAX,
        ensures
            loader.fits(),
            exists|distinct: Seq<Seq<char>>|
                {
                    &&& #[trigger] distinct_industries(industries@, distinct)
                    &&& codes_are(names@, industries@, distinct, loader.industry_codes@)
                    &&& loader.n_industries == distinct.len() + 1
                },
            loader.tickers == self.tickers,
            loader.steps == self.steps,
            loader.batch_size == self.batch_size,
            loader.seed == self.seed,
            loader.sampling == self.sampling,
            loader.windows == self.windows,
            loader.max_batches == self.max_batches,
            loader.batch_offset == self.batch_offset,
    {
        let index = index_industries(names, industries);
        let mut loader = self;
        loader.industry_codes = index.codes;
        loader.n_industries = index.n_industries;
        loader
    }

    /// Randomly keep `count` tickers, chosen with `seed` so the subset is reproducible.
    /// Asking for at least as many tickers as exist is a no-op.
    pub fn sample_tickers(self, count: usize, seed: u64) -> (loader: Self)
        requires
            self.fits(),
        ensures
            loader.fits(),
            loader.same_setup(self),
            loader.histories() == sampled_histories(self.histories(), count, seed),
            loader.windows@ == (if count >= self.tickers@.len() {
                self.windows@
            } else {
                loader.pool()
            }),
            loader.sampling == self.sampling,
            loader.max_batches == self.max_batches,
            loader.batch_offset == self.batch_offset,
            count < self.tickers@.len() ==> is_draw(
                chosen_indices(usize::BITS, seed, self.tickers@.len(), count as nat),
                self.tickers@.len(),
                count as nat,
            ),
    {
        if count >= self.tickers.len() {
            return self;
        }
        let indices = choose_indices(self.tickers.len(), count, seed);
        let mut tickers: Vec<History<N>> = Vec::new();
        let mut at: usize = 0;
        let ghost kept = self.histories();
        while at < indices.len()
            invariant
                at <= indices.len(),
                self.fits(),
                kept == self.histories(),
                is_draw(indices@, kept.len(), count as nat),
                tickers@.len() == at,
                history_views(tickers@) =~= Seq::new(
                    at as nat,
                    |i: int| kept[indices@[i] as int],
                ),
            decreases indices.len() - at,
        {
            let ghost before = history_views(tickers@);
            assert(indices@[at as int] < kept.len());
            let history = self.tickers[indices[at]].duplicate();
            tickers.push(history);
            assert(history_views(tickers@) =~= before.push(history@));
            at = at + 1;
        }
        proof {
            let views = history_views(tickers@);
            assert(views =~= sampled_histories(kept, count, seed));
            assert forall|t: int| 0 <= t < views.len() implies (#[trigger] views[t]).wf()
                && self.steps <= views[t].rows() && views[t].rows() - self.steps <= u32::MAX
                && views[t].rows() <= usize::MAX by {
                assert(kept[indices@[t] as int].wf());
                assert(indices@[t] < kept.len());
            }
        }
        self.with_tickers(tickers)
    }

    /// Split every ticker at `cutoff` into an earlier train loader and a later valid loader.
    /// Tickers whose train or valid side has fewer than `steps` rows are dropped from that
    /// side. Both loaders share the same setup, the valid one sweeps its pool in fixed
    /// order; errors if either side ends up empty.
    pub fn train_valid_split(&self, cutoff: i32) -> (sides: Result<(Self, Self), StoreError>)
        requires
            self.fits(),
        ensures
            ({
                let train = train_heads(self.histories(), cutoff, self.steps as nat);
                let valid = valid_tails(self.histories(), cutoff, self.steps as nat);
                match sides {
                    Ok((left, right)) => {
                        &&& train.len() > 0
                        &&& valid.len() > 0
                        &&& left.fits()
                        &&& right.fits()
                        &&& left.same_setup(*self)
                        &&& right.same_setup(*self)
                        &&& left.histories() == train
                        &&& right.histories() == valid
                        &&& left.windows@ == left.pool()
                        &&& right.windows@ == right.pool()
                        &&& left.sampling == self.sampling
                        &&& left.max_batches == self.max_batches
                        &&& left.batch_offset == self.batch_offset
                        &&& right.sampling == Sampling::Fixed
                        &&& right.max_batches is None
                        &&& right.batch_offset == 0
                    },
                    Err(error) => error == StoreError::EmptySplit && (train.len() == 0
                        || valid.len() == 0),
                }
            }),
    {
        let mut train: Vec<History<N>> = Vec::new();
        let mut valid: Vec<History<N>> = Vec::new();
        let mut at: usize = 0;
        assert(history_views(train@) =~= Seq::<HistoryView<N>>::empty());
        assert(history_views(valid@) =~= Seq::<HistoryView<N>>::empty());
        while at < self.tickers.len()
            invariant
                at <= self.tickers.len(),
                self.fits(),
                train@.len() <= at,
                valid@.len() <= at,
                history_views(train@) == train_heads(
                    self.histories().take(at as int),
                    cutoff,
                    self.steps as nat,
                ),
                history_views(valid@) == valid_tails(
                    self.histories().take(at as int),
                    cutoff,
                    self.steps as nat,
                ),
                histories_ready(history_views(train@), self.steps as nat),
                histories_ready(history_views(valid@), self.steps as nat),
            decreases self.tickers.len() - at,
        {
            let ghost trained = history_views(train@);
            let ghost validated = history_views(valid@);
            let ticker = &self.tickers[at];
            assert(self.histories()[at as int] == ticker@);
            assert(self.histories().take(at + 1).drop_last() =~= self.histories().take(at as int));
            // Dates ascend, so this is where the rows before the cutoff end.
            let split = count_before(&ticker.dates, cutoff);
            let (left, right) = ticker.split_at(split);
            proof {
                split_halves_rejoin(ticker@, split as int);
            }
            if left.rows() >= self.steps {
                train.push(left);
                assert(history_views(train@) =~= trained.push(left@));
            }
            if right.rows() >= self.steps {
                valid.push(right);
                assert(history_views(valid@) =~= validated.push(right@));
            }
            at = at + 1;
        }
        assert(self.histories().take(at as int) =~= self.histories());
        if train.len() == 0 || valid.len() == 0 {
            assert(history_views(train@).len() == 0 || history_views(valid@).len() == 0);
            return Err(StoreError::EmptySplit);
        }
        let left = self.with_tickers(train);
        let right = self.with_tickers(valid).into_fixed();
        Ok((left, right))
    }

    /// The latest date across every ticker, used to anchor a recent-window train/valid
    /// split. `None` only when no ticker has a dated row.
    pub fn max_date(&self) -> (day: Option<i32>)
        ensures
            day == latest(history_dates(self.histories())),
    {
        let mut day: Option<i32> = None;
        let mut at: usize = 0;
        while at < self.tickers.len()
            invariant
                at <= self.tickers.len(),
                day == latest(history_dates(self.histories()).take(at as int)),
            decreases self.tickers.len() - at,
        {
            let ghost columns = history_dates(self.histories());
            assert(columns.take(at + 1).drop_last() =~= columns.take(at as int));
            assert(columns.take(at + 1).last() == self.tickers@[at as int].dates@);
            day = later(day, &self.tickers[at].dates);
            at = at + 1;
        }
        assert(history_dates(self.histories()).take(at as int) =~= history_dates(self.histories()));
        day
    }
}

} // verus!
