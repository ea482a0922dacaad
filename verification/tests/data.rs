//! The stores, datasets, batchers, loaders, labels, and metrics.
use std::sync::Arc;

use chrono::{Datelike, NaiveDate};
use trainer::batcher::{self, encode_one_hot};
use trainer::calendar::{MAX_DAY, MIN_DAY};
use trainer::cli::TrainArgs;
use trainer::dataloader::grouping::{group_rows, part_rows, OhlcvRows};
use trainer::dataloader::industries::{code_or, index_industries, IndustryCode};
use trainer::dataloader::normalize::{normalize_window, CLOSE_OFFSET};
use trainer::dataloader::{EpochCounter, OhlcvGroup, Sampling, StockBatch, StockDataLoader};
use trainer::dataset::WindowDataset;
use trainer::history::{count_before, enumerate_windows, History};
use trainer::label::{forward_mfe, label_groups, load_labeled, zscore_label, LabelColumns};
use trainer::metric::{argmax, ExpectedValueMetric, PrecisionClassMetric, StockEvalInput};
use trainer::number::{Narrow, Number};
use trainer::random::splitmix64;
use trainer::store::{LabeledGroup, StoreError, Ticker, TickerGroup, TickerStore};
use trainer::training::{
    best_valid_loss_epoch, prepare, schedule, split_recent, valid_cap, LossEntry, OptimizerConfig, RunOptions,
    Schedule, StockModelConfig, TrainError, TrainingConfig,
};
use trainer::training::batcher::StockBatcher as CopyBatcher;
use trainer::training::dataset::{StockItem, WindowDataset as ItemDataset};
use trainer::training::metric::{CorrelationMetric, StockEvalInput as RankInput};

/// Single-precision arithmetic for the generic code under test.
#[derive(Clone, Copy, Debug, PartialEq)]
struct F32(f32);

impl Number for F32 {
    fn from_ratio(numerator: u64, denominator: u64) -> Self {
        F32(numerator as f32 / denominator as f32)
    }

    fn empty_sum() -> Self {
        F32(std::iter::empty::<f32>().sum())
    }

    fn unbounded() -> Self {
        F32(f32::INFINITY)
    }

    fn plus(self, other: Self) -> Self {
        F32(self.0 + other.0)
    }

    fn minus(self, other: Self) -> Self {
        F32(self.0 - other.0)
    }

    fn times(self, other: Self) -> Self {
        F32(self.0 * other.0)
    }

    fn over(self, other: Self) -> Self {
        F32(self.0 / other.0)
    }

    fn larger(self, other: Self) -> Self {
        F32(self.0.max(other.0))
    }

    fn higher(self, other: Self) -> Self {
        if self.0.is_nan() || self.0 > other.0 {
            self
        } else {
            other
        }
    }

    fn smaller(self, other: Self) -> Self {
        F32(self.0.min(other.0))
    }

    fn floor(self) -> Self {
        F32(self.0.floor())
    }

    fn ceil(self) -> Self {
        F32(self.0.ceil())
    }

    fn sqrt(self) -> Self {
        F32(self.0.sqrt())
    }

    fn log_one_plus(self) -> Self {
        F32(self.0.ln_1p())
    }

    fn whole(self) -> u64 {
        self.0 as u64
    }

    fn exceeds(self, other: Self) -> bool {
        self.0 > other.0
    }

    fn reaches(self, other: Self) -> bool {
        self.0 >= other.0
    }

    fn is_finite(self) -> bool {
        self.0.is_finite()
    }

    fn rank(self) -> i64 {
        let bits = self.0.to_bits() as i32;
        i64::from(bits ^ (((bits >> 31) as u32) >> 1) as i32)
    }

    fn text(self, decimals: usize, signed: bool) -> String {
        if signed {
            format!("{:+.*}", decimals, self.0)
        } else {
            format!("{:.*}", decimals, self.0)
        }
    }
}

/// Double-precision arithmetic, which single precision widens to.
#[derive(Clone, Copy, Debug, PartialEq)]
struct F64(f64);

impl Number for F64 {
    fn from_ratio(numerator: u64, denominator: u64) -> Self {
        F64(numerator as f64 / denominator as f64)
    }

    fn empty_sum() -> Self {
        F64(std::iter::empty::<f64>().sum())
    }

    fn unbounded() -> Self {
        F64(f64::INFINITY)
    }

    fn plus(self, other: Self) -> Self {
        F64(self.0 + other.0)
    }

    fn minus(self, other: Self) -> Self {
        F64(self.0 - other.0)
    }

    fn times(self, other: Self) -> Self {
        F64(self.0 * other.0)
    }

    fn over(self, other: Self) -> Self {
        F64(self.0 / other.0)
    }

    fn larger(self, other: Self) -> Self {
        F64(self.0.max(other.0))
    }

    fn higher(self, other: Self) -> Self {
        if self.0.is_nan() || self.0 > other.0 {
            self
        } else {
            other
        }
    }

    fn smaller(self, other: Self) -> Self {
        F64(self.0.min(other.0))
    }

    fn floor(self) -> Self {
        F64(self.0.floor())
    }

    fn ceil(self) -> Self {
        F64(self.0.ceil())
    }

    fn sqrt(self) -> Self {
        F64(self.0.sqrt())
    }

    fn log_one_plus(self) -> Self {
        F64(self.0.ln_1p())
    }

    fn whole(self) -> u64 {
        self.0 as u64
    }

    fn exceeds(self, other: Self) -> bool {
        self.0 > other.0
    }

    fn reaches(self, other: Self) -> bool {
        self.0 >= other.0
    }

    fn is_finite(self) -> bool {
        self.0.is_finite()
    }

    fn rank(self) -> i64 {
        let bits = self.0.to_bits() as i64;
        bits ^ (((bits >> 63) as u64) >> 1) as i64
    }

    fn text(self, decimals: usize, signed: bool) -> String {
        if signed {
            format!("{:+.*}", decimals, self.0)
        } else {
            format!("{:.*}", decimals, self.0)
        }
    }
}

impl Narrow for F32 {
    type Wide = F64;

    fn widened(self) -> F64 {
        F64(f64::from(self.0))
    }

    fn narrowed(wide: F64) -> F32 {
        F32(wide.0 as f32)
    }
}

/// Day number of 1 January 1970.
const EPOCH: i32 = 719_163;

const STRIDE: usize = 5;

/// One flat history of `rows` rows. Every slot in a row shares the value `base + row`, so
/// `base` separates tickers. Labels cycle 0/1/2. Dates ascend from the epoch.
fn make_history<T: Copy>(name: &str, base: f32, rows: i16, value: fn(f32) -> T) -> History<T> {
    let mut features = Vec::new();
    for i in 0..rows {
        features.extend(std::iter::repeat(value(base + f32::from(i))).take(STRIDE));
    }
    History {
        name: name.to_string(),
        dates: (0..i32::from(rows)).map(|i| EPOCH + i).collect(),
        features,
        labels: (0..rows).map(|i| u8::try_from(i % 3).unwrap()).collect(),
    }
}

fn make_ticker(name: &str, base: f32, rows: i16) -> Ticker<f32> {
    // Prices rise with the row, one-unit intraday range.
    let close: Vec<f32> = (0..rows).map(|i| base + f32::from(i)).collect();
    Ticker {
        history: make_history(name, base, rows, |value| value),
        rewards: (0..rows).map(|i| f32::from(i) * 0.01).collect(),
        open: close.clone(),
        high: close.iter().map(|price| price + 1.0).collect(),
        low: close.iter().map(|price| price - 1.0).collect(),
        close,
        industry: 0,
    }
}

fn synthetic(n_tickers: i16, rows: i16) -> TickerStore<f32> {
    TickerStore {
        tickers: (0..n_tickers)
            .map(|t| make_ticker(&format!("t{t}"), f32::from(t) * 1000.0, rows))
            .collect(),
        n_industries: 0,
    }
}

#[test]
fn store_enumerate_windows_skips_short_tickers() {
    let mut store = synthetic(2, 6);
    // Too short for any window of length 4.
    store.tickers.push(make_ticker("short", 9000.0, 3));

    let windows = store.enumerate_windows(4);

    // Each 6-row ticker yields 3 windows; the 3-row ticker none.
    assert_eq!(windows.len(), 6);
    assert!(windows.iter().all(|&(ticker, _)| ticker != 2));
}

#[test]
fn store_sample_tickers_keeps_a_reproducible_subset() {
    let store = synthetic(10, 20);

    let first = store.sample_tickers(4, 7);
    assert_eq!(first.tickers.len(), 4);

    let again = synthetic(10, 20).sample_tickers(4, 7);
    let first_names: Vec<_> = first.tickers.iter().map(|t| t.history.name.clone()).collect();
    let again_names: Vec<_> = again.tickers.iter().map(|t| t.history.name.clone()).collect();
    assert_eq!(first_names, again_names);
}

#[test]
fn store_max_date_is_the_latest_row() {
    let store = synthetic(3, 20);
    assert_eq!(store.max_date(), Some(EPOCH + 19));
}

#[test]
fn store_quotes_align_prices_with_dates() {
    let store = synthetic(2, 8);
    let quotes = store.quotes();

    assert_eq!(quotes.len(), 2);
    let first = &quotes[0];
    // Every price vector matches the date count.
    assert_eq!(first.dates.len(), 8);
    assert_eq!(first.open.len(), 8);
    assert_eq!(first.high.len(), 8);
    assert_eq!(first.low.len(), 8);
    assert_eq!(first.close.len(), 8);
    // One-unit range around the close.
    assert!((first.high[3] - first.close[3] - 1.0).abs() < 1e-6);
    assert!((first.close[3] - first.low[3] - 1.0).abs() < 1e-6);
}

#[test]
fn store_train_valid_split_partitions_rows() {
    let store = synthetic(3, 20);
    // 11 January 1970.
    let cutoff = EPOCH + 10;

    let (train, valid) = store.train_valid_split(cutoff, 4).ok().unwrap();

    assert_eq!(train.tickers.len(), 3);
    assert_eq!(valid.tickers.len(), 3);
    assert_eq!(train.tickers[0].rows(), 10);
    assert_eq!(valid.tickers[0].rows(), 10);
}

#[test]
fn a_sample_holds_distinct_tickers_of_the_store() {
    let sample = synthetic(10, 5).sample_tickers(4, 3);
    let mut names: Vec<String> = sample.tickers.iter().map(|t| t.history.name.clone()).collect();
    names.sort();
    names.dedup();
    assert_eq!(names.len(), 4);
    // What a reservoir draw from the first seed values gives, not the first four.
    let other = synthetic(10, 5).sample_tickers(4, 4);
    let first: Vec<String> = sample.tickers.iter().map(|t| t.history.name.clone()).collect();
    let second: Vec<String> = other.tickers.iter().map(|t| t.history.name.clone()).collect();
    assert_ne!(first, vec!["t0", "t1", "t2", "t3"]);
    assert_ne!(first, second);
    // Asking for as many as there are changes nothing.
    let whole = synthetic(3, 5).sample_tickers(3, 1);
    let names: Vec<String> = whole.tickers.iter().map(|t| t.history.name.clone()).collect();
    assert_eq!(names, vec!["t0", "t1", "t2"]);
}

#[test]
fn split_sides_rejoin_and_stay_apart() {
    let store = synthetic(1, 9);
    let cutoff = EPOCH + 4;
    let (train, valid) = store.train_valid_split(cutoff, 1).ok().unwrap();
    let left = &train.tickers[0];
    let right = &valid.tickers[0];
    assert!(left.history.dates.iter().all(|day| *day < cutoff));
    assert!(right.history.dates.iter().all(|day| *day >= cutoff));
    let joined: Vec<f32> =
        left.history.features.iter().chain(&right.history.features).copied().collect();
    assert_eq!(joined, store.tickers[0].history.features);
    let closes: Vec<f32> = left.close.iter().chain(&right.close).copied().collect();
    assert_eq!(closes, store.tickers[0].close);
}

#[test]
fn a_split_with_an_empty_side_is_refused() {
    let store = synthetic(2, 9);
    let error = store.train_valid_split(EPOCH, 2).err().unwrap();
    assert_eq!(error, StoreError::EmptySplit);
    assert_eq!(
        error.message(),
        "train/valid split left one side empty; check cutoff and steps"
    );
    assert!(store.train_valid_split(EPOCH + 20, 2).is_err());
    assert!(store.train_valid_split(EPOCH + 1, 2).is_err());
    assert!(store.train_valid_split(EPOCH + 2, 2).is_ok());
}

#[test]
fn label_counts_add_up_to_the_rows() {
    let store = synthetic(2, 8);
    // Rows 0..8 cycle 0/1/2: three, three, two per ticker.
    assert_eq!(store.label_counts(), [6, 6, 4]);
    assert_eq!(store.ticker_count(), 2);
}

#[test]
fn backtest_windows_pair_features_and_rewards() {
    let mut store = synthetic(2, 5);
    store.tickers.push(make_ticker("short", 0.0, 2));
    let (windows, rewards) = store.backtest_windows(3);
    assert_eq!(windows.len(), 6);
    assert_eq!(rewards.len(), 6);
    assert_eq!(windows[1].ticker, "t0");
    assert_eq!(windows[1].date, EPOCH + 3);
    assert_eq!(windows[1].features.len(), 3 * STRIDE);
    assert_eq!(windows[1].features[0], 1.0);
    assert_eq!(windows[1].features[14], 3.0);
    assert_eq!(rewards[1], 0.03);
    assert_eq!(windows[3].ticker, "t1");
    assert_eq!(windows[3].features[0], 1000.0);
}

#[test]
fn recent_windows_draw_their_lookback_from_before_the_cutoff() {
    let store = synthetic(2, 6);
    let windows = store.backtest_windows_since(4, EPOCH + 4);
    let ends: Vec<i32> = windows.iter().map(|window| window.date - EPOCH).collect();
    assert_eq!(ends, vec![4, 5, 4, 5]);
    assert_eq!(windows[0].features[0], 1.0);
}

fn group(name: &str, rows: i32, missing_open: Option<usize>) -> TickerGroup<f32> {
    let prices = |shift: f32| (0..rows).map(|i| Some(i as f32 + shift)).collect::<Vec<_>>();
    let mut open = prices(0.5);
    if let Some(at) = missing_open {
        open[at] = None;
    }
    TickerGroup {
        name: name.to_string(),
        dates: (0..rows).map(|i| EPOCH + i).collect(),
        features: (0..rows * 5).map(|i| i as f32).collect(),
        open,
        high: prices(1.0),
        low: prices(-1.0),
        close: prices(0.0),
    }
}

fn labeled(name: &str, rows: i32, horizon: i32, missing_open: Option<usize>) -> LabeledGroup<f32> {
    let kept = (rows - horizon).max(0);
    LabeledGroup {
        group: group(name, rows, missing_open),
        labels: (0..kept).map(|i| (i % 3) as u8).collect(),
        rewards: (0..kept).map(|i| i as f32 * 0.1).collect(),
    }
}

#[test]
fn loading_drops_the_rows_without_a_forward_window() {
    let groups = vec![labeled("A", 6, 2, None), labeled("short", 2, 2, None)];
    let store = TickerStore::load(&groups, 2, None).ok().unwrap();
    assert_eq!(store.ticker_count(), 1);
    let ticker = &store.tickers[0];
    assert_eq!(ticker.history.name, "A");
    assert_eq!(ticker.rows(), 4);
    assert_eq!(ticker.history.features.len(), 20);
    assert_eq!(ticker.close, vec![0.0, 1.0, 2.0, 3.0]);
    assert_eq!(ticker.rewards.len(), 4);
}

#[test]
fn a_missing_price_is_filled_or_refused() {
    let groups = vec![labeled("A", 6, 2, Some(1))];
    let error = TickerStore::load(&groups, 2, None).err().unwrap();
    assert_eq!(error, StoreError::NullPrice);
    assert_eq!(error.message(), "price column must not contain nulls");

    let store = TickerStore::load(&groups, 2, Some(f32::NAN)).ok().unwrap();
    assert!(store.tickers[0].open[1].is_nan());
    assert_eq!(store.tickers[0].open[2], 2.5);

    // A gap among the dropped rows is no error.
    let groups = vec![labeled("A", 6, 2, Some(5))];
    assert!(TickerStore::load(&groups, 2, None).is_ok());
}

#[test]
fn loading_prices_keeps_every_row() {
    let groups = vec![group("A", 6, None), group("none", 0, None)];
    let store = TickerStore::load_prices(&groups, 0.0).ok().unwrap();
    assert_eq!(store.ticker_count(), 1);
    assert_eq!(store.tickers[0].rows(), 6);
    assert_eq!(store.tickers[0].history.labels, vec![0; 6]);
    assert_eq!(store.tickers[0].rewards, vec![0.0; 6]);
    let refused = TickerStore::load_prices(&vec![group("A", 6, Some(5))], 0.0);
    assert_eq!(refused.err().unwrap(), StoreError::NullPrice);
}

#[test]
fn row_offsets_lead_into_the_resident_buffers() {
    let mut store = synthetic(1, 4);
    store.tickers.push(make_ticker("b", 500.0, 6));
    store.tickers.push(make_ticker("c", 900.0, 2));
    let offsets = store.row_offsets();
    assert_eq!(offsets, vec![0, 4, 10]);
    let buffers = store.resident_buffers();
    assert_eq!(buffers.rows, 12);
    assert_eq!(buffers.features[(4 + 3) * STRIDE + 2], 503.0);
    assert_eq!(buffers.labels[4 + 3], 0);
    assert_eq!(buffers.labels[4 + 4], 1);
    assert_eq!(buffers.rewards[10 + 1], 0.01);
}

#[test]
fn the_pool_holds_every_window_once() {
    let pool = enumerate_windows(&vec![3, 1, 4], 2);
    assert_eq!(pool, vec![(0, 0), (0, 1), (2, 0), (2, 1), (2, 2)]);
    assert_eq!(enumerate_windows(&vec![2], 0), vec![(0, 0), (0, 1), (0, 2)]);
}

#[test]
fn rows_before_a_cutoff_are_counted() {
    let dates = vec![1, 3, 3, 7];
    assert_eq!(count_before(&dates, 0), 0);
    assert_eq!(count_before(&dates, 3), 1);
    assert_eq!(count_before(&dates, 4), 3);
    assert_eq!(count_before(&dates, 8), 4);
}

#[test]
fn dataset_len_counts_every_window() {
    let dataset = WindowDataset::new(Arc::new(synthetic(3, 20)), 4);
    // Each ticker yields 20 - 4 + 1 = 17 windows across 3 tickers.
    assert_eq!(dataset.len(), 17 * 3);

    let dataset = ItemDataset::new(&synthetic(3, 20), 4);
    assert_eq!(dataset.len(), 17 * 3);
}

#[test]
fn get_materializes_a_window_item() {
    let store = Arc::new(synthetic(2, 10).set_industries(vec![1, 0], 2));
    let dataset = WindowDataset::new(store, 4);

    let item = dataset.get(0).unwrap();

    // A window of 4 steps over 5 features is 20 floats.
    assert_eq!(item.technical.len(), 4 * 5);
    // First window is the first ticker, whose industry was set to 1.
    assert_eq!(item.industry, 1);
    // Labels cycle 0/1/2; the window's last day is row index 3 -> label 0.
    assert_eq!(item.label, 0);
    // Row `i` fills every slot with `base + i`; the first ticker's base is 0, so the last
    // row's slots pass through unscaled as 3.
    assert!((item.technical[3 * 5 + 3] - 3.0).abs() < 1e-6);
    assert_eq!(item.reward, 0.03);
    assert!(dataset.get(14).is_none());
}

#[test]
fn dataset_subsample_order_is_reproducible() {
    let first = WindowDataset::subsample(Arc::new(synthetic(4, 20)), 4, 99).windows;
    let again = WindowDataset::subsample(Arc::new(synthetic(4, 20)), 4, 99).windows;
    assert_eq!(first, again);

    let items = ItemDataset::subsample(&synthetic(4, 20), 4, 99).windows;
    let same = ItemDataset::subsample(&synthetic(4, 20), 4, 99).windows;
    assert_eq!(items, same);
}

#[test]
fn a_subsample_is_the_pool_in_another_order() {
    let natural = WindowDataset::new(Arc::new(synthetic(4, 20)), 4).windows;
    let mut shuffled = WindowDataset::subsample(Arc::new(synthetic(4, 20)), 4, 99).windows;
    assert_ne!(natural, shuffled);
    shuffled.sort();
    assert_eq!(natural, shuffled);
}

#[test]
fn get_maps_index_to_window() {
    let dataset = ItemDataset::new(&synthetic(2, 10), 4);

    assert_eq!(
        (dataset.get(0).unwrap().ticker, dataset.get(0).unwrap().start),
        (0, 0)
    );

    // 7 windows per 10-row ticker, so index 7 is the second ticker's first window.
    let seventh = dataset.get(7).unwrap();
    assert_eq!((seventh.ticker, seventh.start), (1, 0));
    assert!(dataset.get(14).is_none());
}

#[test]
fn gathers_windows_labels_and_one_hot() {
    // Two tickers of ten rows; row `i` fills all five features with `base + i`, where base
    // separates tickers (0 and 1000).
    let store = synthetic(2, 10).set_industries(vec![1, 0], 2);
    let batcher = batcher::StockBatcher::new(4, 2, &store);

    // Absolute starts: the first ticker's row 0, and the second ticker's row 0 at its row
    // offset 10.
    let items = vec![batcher::StockItem { start: 0 }, batcher::StockItem { start: 10 }];
    let batch = batcher.batch(&items);

    assert_eq!(batch.technical.len(), 2 * 4 * STRIDE);
    assert_eq!(batch.label.len(), 2);
    assert_eq!(batch.ticker.len(), 2 * 2);

    // The first window gathers ticker 0 rows 0..4 (values 0..3), the second gathers ticker
    // 1 rows 0..4 (values 1000..1003), across all five features.
    let values = batch.technical;
    let expected_first = [0.0f32, 1.0, 2.0, 3.0];
    let expected_second = [1000.0f32, 1001.0, 1002.0, 1003.0];
    for step in 0..4 {
        assert!((values[step * STRIDE] - expected_first[step]).abs() < 1e-6);
        assert!((values[(4 + step) * STRIDE] - expected_second[step]).abs() < 1e-6);
    }

    // Industry is read on the last day: ticker 0 -> bucket 1, ticker 1 -> 0.
    let ticker: Vec<f32> = batch.ticker.iter().map(|&mark| f32::from(mark)).collect();
    let expected_ticker = [0.0f32, 1.0, 1.0, 0.0];
    assert_eq!(ticker.len(), expected_ticker.len());
    for (got, want) in ticker.iter().zip(expected_ticker) {
        assert!((got - want).abs() < 1e-6);
    }
    assert_eq!(batch.label, vec![0, 0]);
    assert_eq!(batch.reward, vec![0.03, 0.03]);
}

#[test]
fn ticker_is_width_zero_without_industries() {
    let store = synthetic(2, 10);
    let batcher = batcher::StockBatcher::new(4, 0, &store);

    let items = vec![batcher::StockItem { start: 0 }, batcher::StockItem { start: 10 }];
    let batch = batcher.batch(&items);

    assert_eq!(batch.label.len(), 2);
    assert_eq!(batch.ticker.len(), 0);
}

#[test]
fn one_hot_rows_have_one_mark_each() {
    assert_eq!(encode_one_hot(&vec![2, 0], 3), vec![0, 0, 1, 1, 0, 0]);
    assert_eq!(encode_one_hot(&vec![], 3), Vec::<u8>::new());
}

#[test]
fn slices_windows_and_labels() {
    // Two tickers of ten rows; row `i` fills features with `base + i`, base separating
    // tickers (0 and 1000).
    let store = synthetic(2, 10);
    let batcher = CopyBatcher::new(4, &store);

    // Ticker 0 from row 0, ticker 1 from row 1.
    let items = vec![StockItem { ticker: 0, start: 0 }, StockItem { ticker: 1, start: 1 }];
    let batch = batcher.batch(&items);

    assert_eq!(batch.technical.len(), 2 * 4 * STRIDE);
    assert_eq!(batch.label.len(), 2);

    // First window covers ticker 0 rows 0..4, second ticker 1 rows 1..5.
    for step in 0..4u8 {
        let row = usize::from(step);
        assert!((batch.technical[row * STRIDE] - f32::from(step)).abs() < 1e-6);
        assert!(
            (batch.technical[(4 + row) * STRIDE] - (1001.0 + f32::from(step))).abs() < 1e-6
        );
    }

    // Labels come from each window's last row: ticker 0 row 3 (3 % 3 = 0) and ticker 1 row
    // 4 (4 % 3 = 1).
    assert_eq!(batch.label, vec![0, 1]);
}

fn make_loader(
    n_tickers: i16,
    rows: i16,
    steps: usize,
    batch_size: usize,
    seed: Option<u64>,
    max_batches: usize,
) -> StockDataLoader<F32> {
    let tickers: Vec<History<F32>> = (0..n_tickers)
        .map(|t| make_history(&format!("t{t}"), f32::from(t) * 1000.0, rows, F32))
        .collect();
    let counts = tickers.iter().map(|ticker| ticker.rows()).collect();
    StockDataLoader {
        tickers,
        steps,
        batch_size,
        seed,
        sampling: Sampling::Shuffle,
        windows: enumerate_windows(&counts, steps),
        // A test passes 0 to mean "no cap".
        max_batches: (max_batches != 0).then_some(max_batches),
        batch_offset: 0,
        industry_codes: Vec::new(),
        n_industries: 0,
    }
}

/// Drain the first batch of the next epoch.
fn first_batch(loader: &StockDataLoader<F32>, epochs: &mut EpochCounter) -> StockBatch<F32> {
    loader.iter(epochs).next().unwrap()
}

#[test]
fn normalize_window_scales_price_and_volume() {
    // Three rows of (open, high, low, close, volume), last close is 16.
    let mut window: Vec<F32> = [
        10.0, 11.0, 9.0, 10.0, 100.0, //
        12.0, 13.0, 11.0, 12.0, 200.0, //
        14.0, 15.0, 13.0, 16.0, 300.0, //
    ]
    .into_iter()
    .map(F32)
    .collect();

    normalize_window(&mut window, 3);

    // OHLC are divided by the window's last close, so it lands exactly on 1.
    assert!((window[2 * 5 + CLOSE_OFFSET].0 - 1.0).abs() < 1e-6);
    assert!((window[3].0 - 10.0 / 16.0).abs() < 1e-6);

    // Volume is z-scored, so it has near-zero mean and stays monotonic.
    let volumes = [window[4].0, window[9].0, window[14].0];
    let mean = volumes.iter().sum::<f32>() / 3.0;
    assert!(mean.abs() < 1e-6);
    assert!(volumes[0] < volumes[1] && volumes[1] < volumes[2]);
}

#[test]
fn flat_windows_normalize_without_dividing_by_zero() {
    let mut window: Vec<F32> =
        [1.0, 2.0, 3.0, 0.0, 7.0, 1.0, 2.0, 3.0, 0.0, 7.0].into_iter().map(F32).collect();
    normalize_window(&mut window, 2);
    let values: Vec<f32> = window.iter().map(|value| value.0).collect();
    assert_eq!(values, vec![1.0, 2.0, 3.0, 0.0, 0.0, 1.0, 2.0, 3.0, 0.0, 0.0]);
}

fn some(text: &str) -> Option<String> {
    Some(text.to_string())
}

#[test]
fn index_industries_encodes_and_buckets_unknown() {
    let names = vec![some("tse_2330"), some("otc_1240"), some("tse_2317"), some("tse_9999")];
    let industries = vec![some("24"), some("16"), some("24"), None];

    let index = index_industries(&names, &industries);
    let code = |name: &str| {
        index.codes.iter().find(|entry| entry.name == name).map(|entry| entry.code)
    };

    // Two distinct industries ("16", "24") plus the unknown bucket.
    assert_eq!(index.n_industries, 3);
    // Sorted order: "16" -> 0, "24" -> 1.
    assert_eq!(code("otc_1240"), Some(0));
    assert_eq!(code("tse_2330"), Some(1));
    assert_eq!(code("tse_2317"), Some(1));
    // The null-industry ticker is left out entirely.
    assert_eq!(code("tse_9999"), None);
    assert_eq!(code_or(&index.codes, &"tse_9999".to_string(), 2), 2);
}

#[test]
fn the_last_row_of_a_name_sets_its_code() {
    let names = vec![some("a"), some("b"), some("a"), None];
    let industries = vec![some("x"), some("y"), some("w"), some("z")];
    let index = index_industries(&names, &industries);
    assert_eq!(index.n_industries, 5);
    assert_eq!(code_or(&index.codes, &"a".to_string(), 9), 0);
    assert_eq!(code_or(&index.codes, &"b".to_string(), 9), 2);
}

#[test]
fn industry_feature_is_one_hot() {
    let mut loader = make_loader(3, 20, 4, 3, Some(7), 4);

    // Tickers are named t0, t1, t2; leave t2 to the unknown bucket.
    loader.industry_codes = vec![
        IndustryCode { name: "t0".to_string(), code: 0 },
        IndustryCode { name: "t1".to_string(), code: 1 },
    ];
    loader.n_industries = 3;

    let batch = first_batch(&loader, &mut EpochCounter::new());

    assert_eq!(batch.label.len(), 3);
    assert_eq!(batch.ticker.len(), 3 * 3);

    // Every row is one-hot, so each row sums to exactly one.
    for row in batch.ticker.chunks(3) {
        let sum: f32 = row.iter().map(|&mark| f32::from(mark)).sum();
        assert!((sum - 1.0).abs() < 1e-6);
    }
}

#[test]
fn tickers_without_a_code_fall_into_the_last_bucket() {
    let loader = make_loader(3, 20, 4, 3, None, 0)
        .into_fixed()
        .attach_industries(&vec![some("t0"), some("t1")], &vec![some("b"), some("a")]);
    assert_eq!(loader.n_industries(), 3);
    let batch = loader.assemble(&vec![(0, 0), (1, 0), (2, 0)]);
    assert_eq!(batch.ticker, vec![0, 1, 0, 1, 0, 0, 0, 0, 1]);
    assert_eq!(batch.label, vec![0, 0, 0]);
}

#[test]
fn first_epoch_is_reproducible_and_shaped() {
    // Two loaders with the same seed draw the same first epoch.
    let first = first_batch(&make_loader(5, 20, 4, 3, Some(42), 8), &mut EpochCounter::new());
    let again = first_batch(&make_loader(5, 20, 4, 3, Some(42), 8), &mut EpochCounter::new());

    assert_eq!(first.technical.len(), 3 * 4 * 5);
    assert_eq!(first.label.len(), 3);

    assert_eq!(first.technical, again.technical);
    assert_eq!(first.label, again.label);
}

#[test]
fn shuffle_varies_across_epochs() {
    // The same loader reshuffles on each epoch, so consecutive epochs draw a different first
    // batch. Each ticker is offset by 1000, so different windows give different data.
    let loader = make_loader(5, 30, 4, 4, Some(1), 0);

    let mut epochs = EpochCounter::new();
    let epoch_one = first_batch(&loader, &mut epochs).technical;
    let epoch_two = first_batch(&loader, &mut epochs).technical;

    assert!(
        epoch_one != epoch_two,
        "consecutive epochs should reshuffle to a different first batch"
    );
}

#[test]
fn an_epoch_order_visits_every_window_once() {
    let mut loader = make_loader(3, 20, 4, 2, Some(5), 0);
    let natural: Vec<u32> = (0..51).collect();
    let mut epochs = EpochCounter { next: 3 };
    let mut seeded = loader.epoch_order(&mut epochs);
    assert_eq!(epochs.next, 4);
    assert_ne!(seeded, natural);
    assert_eq!(seeded, loader.epoch_order(&mut EpochCounter { next: 3 }));
    seeded.sort();
    assert_eq!(seeded, natural);

    loader.seed = None;
    let mut drawn = loader.epoch_order(&mut epochs);
    assert_eq!(epochs.next, 5);
    drawn.sort();
    assert_eq!(drawn, natural);

    loader.sampling = Sampling::Fixed;
    assert_eq!(loader.epoch_order(&mut epochs), natural);
    assert_eq!(epochs.next, 5);

    // The counter wraps around.
    loader.sampling = Sampling::Shuffle;
    let mut last = EpochCounter { next: u64::MAX };
    loader.epoch_order(&mut last);
    assert_eq!(last.next, 0);
}

#[test]
fn fixed_sweeps_every_window_once() {
    // 3 tickers of 20 rows, window of 4, two windows per batch.
    let loader = make_loader(3, 20, 4, 2, None, 0).into_fixed();

    // Each ticker yields 20 - 4 + 1 = 17 windows, so 51 across 26 batches.
    let windows_per_ticker = 20 - 4 + 1;
    let total_windows: usize = windows_per_ticker * 3;
    assert_eq!(loader.num_items(), total_windows.div_ceil(2));

    let mut walk = loader.iter(&mut EpochCounter::new());
    assert_eq!(walk.size_hint(), (26, Some(26)));
    let mut swept = 0;
    while let Some(batch) = walk.next() {
        swept += batch.label.len();
    }

    assert_eq!(swept, total_windows);
    assert_eq!(walk.progress().items_processed, 26);
    assert_eq!(walk.progress().items_total, 26);
    assert!(walk.next().is_none());
}

#[test]
fn slice_narrows_batch_range() {
    let loader = make_loader(5, 20, 4, 3, Some(1), 10);

    let shard = loader.slice(2, 7);

    assert_eq!(shard.num_items(), 5);
}

#[test]
fn a_slice_yields_the_loaders_own_batches() {
    let loader = make_loader(5, 20, 4, 3, Some(1), 10);
    let shard = loader.slice(2, 7).slice(1, 3);
    assert_eq!(shard.num_items(), 2);
    let mut whole = loader.iter(&mut EpochCounter { next: 4 });
    for _ in 0..3 {
        whole.next();
    }
    let mut part = shard.iter(&mut EpochCounter { next: 4 });
    assert_eq!(whole.next().unwrap().technical, part.next().unwrap().technical);
    assert_eq!(whole.next().unwrap().technical, part.next().unwrap().technical);
    assert!(part.next().is_none());
}

#[test]
fn subsample_is_capped_and_stable() {
    // 4 tickers of 30 rows, window 4, three windows per batch.
    let loader = make_loader(4, 30, 4, 3, None, 0).into_subsample(Some(2), 99);

    // The cap holds regardless of how many windows the pool actually has.
    assert_eq!(loader.num_items(), 2);

    // A fixed sweep never advances the epoch, so repeated passes see the same subsample in
    // the same order.
    let mut epochs = EpochCounter::new();
    let first = first_batch(&loader, &mut epochs).technical;
    let again = first_batch(&loader, &mut epochs).technical;
    assert_eq!(epochs.next, 0);

    assert_eq!(first, again);
}

#[test]
fn dataloader_train_valid_split_partitions_rows() {
    let loader = make_loader(3, 20, 4, 3, Some(0), 8);
    // 11 January 1970.
    let cutoff = EPOCH + 10;

    let (train, valid) = loader.train_valid_split(cutoff).ok().unwrap();

    assert_eq!(train.tickers.len(), 3);
    assert_eq!(valid.tickers.len(), 3);
    assert_eq!(train.tickers[0].rows(), 10);
    assert_eq!(valid.tickers[0].rows(), 10);
    assert_eq!(train.max_batches, Some(8));
    assert_eq!(valid.max_batches, None);
    assert_eq!(valid.sampling, Sampling::Fixed);
    assert_eq!(valid.windows.len(), 21);
    assert!(loader.train_valid_split(EPOCH + 3).is_err());
}

#[test]
fn a_loader_drops_the_last_row_of_every_group() {
    let make = |name: &str, rows: i32| OhlcvGroup {
        name: name.to_string(),
        dates: (0..rows).map(|i| EPOCH + i).collect(),
        features: (0..rows * 5).map(|i| F32(i as f32)).collect(),
        labels: (1..rows).map(|i| (i % 3) as u8).collect(),
    };
    let groups = vec![make("a", 6), make("b", 4), make("c", 5)];
    let loader = StockDataLoader::load(&groups, 4, 2, Some(9), Some(1));
    let names: Vec<&str> = loader.tickers.iter().map(|ticker| ticker.name.as_str()).collect();
    assert_eq!(names, vec!["a", "c"]);
    assert_eq!(loader.tickers[0].rows(), 5);
    assert_eq!(loader.windows, vec![(0, 0), (0, 1), (1, 0)]);
    assert_eq!(loader.max_date(), Some(EPOCH + 4));
    assert_eq!(loader.num_items(), 2);

    // An empty batch is no obstacle to loading.
    let idle = StockDataLoader::load(&groups, 4, 0, None, None);
    assert_eq!(idle.windows.len(), 3);

    let sample = make_loader(10, 20, 4, 3, None, 0).sample_tickers(4, 7);
    let store = synthetic(10, 20).sample_tickers(4, 7);
    let left: Vec<String> = sample.tickers.iter().map(|ticker| ticker.name.clone()).collect();
    let right: Vec<String> = store.tickers.iter().map(|t| t.history.name.clone()).collect();
    assert_eq!(left, right);
    assert_eq!(sample.windows.len(), 4 * 17);
}

#[test]
fn no_two_epochs_share_a_seed() {
    let mut seeds: Vec<u64> = (0..1_000).map(|epoch| splitmix64(42, epoch)).collect();
    seeds.extend((0..1_000).map(|seed| splitmix64(seed * 3 + 1_000_000, 7)));
    seeds.sort();
    seeds.dedup();
    assert_eq!(seeds.len(), 2_000);
}

#[test]
fn seeds_are_mixed_by_splitmix() {
    assert_eq!(splitmix64(0, 0), 0);
    assert_eq!(splitmix64(0, 1), 0xE220_A839_7B1D_CDAF);
    assert_eq!(splitmix64(0, 2), 0x6E78_9E6A_A1B9_65F4);
}

/// A column without a missing price.
fn prices(values: &[f32]) -> Vec<Option<F32>> {
    values.iter().map(|value| Some(F32(*value))).collect()
}

#[test]
fn forward_mfe_is_peak_over_next_low() {
    // horizon 2, one ticker. t=0: entry=low[1]=10, peak=max(high[1..=2])=13 -> 0.3.
    // t=1: entry=low[2]=11, peak=max(high[2..=3])=13 -> 13/11-1. Last 2 rows null.
    let high = prices(&[10.0, 11.0, 13.0, 12.0]);
    let low = prices(&[10.0, 10.0, 11.0, 11.0]);

    let raw = forward_mfe(&high, &low, 2);

    assert!((raw[0].unwrap().0 - 0.3).abs() < 1e-6);
    assert!((raw[1].unwrap().0 - (13.0 / 11.0 - 1.0)).abs() < 1e-6);
    assert!(raw[2].is_none());
    assert!(raw[3].is_none());
}

#[test]
fn zscore_label_centers_each_date() {
    // Two tickers, two dates. Each date's z-scored labels sum to ~0.
    let dates = vec![EPOCH, EPOCH + 1, EPOCH, EPOCH + 1];
    let raw: Vec<Option<F32>> =
        [1.0f32, 2.0, 3.0, 6.0].into_iter().map(|value| Some(F32(value))).collect();

    let label = zscore_label(&dates, &raw);
    let get = |at: usize| label[at].unwrap().0;

    // Epoch rows are 0 and 2; next rows are 1 and 3.
    assert!((get(0) + get(2)).abs() < 1e-5);
    assert!((get(1) + get(3)).abs() < 1e-5);
    // The larger value of each date standardizes above the smaller.
    assert!(get(2) > get(0));
    // Two values one deviation and a half apart: (3 - 2) / sqrt(2).
    assert!((get(2) - 1.0 / 2.0f32.sqrt()).abs() < 1e-5);
}

#[test]
fn the_universe_is_labeled_by_date() {
    let tickers = vec![
        LabelColumns {
            dates: vec![EPOCH, EPOCH + 1, EPOCH + 2],
            high: prices(&[10.0, 12.0, 12.0]),
            low: prices(&[10.0, 10.0, 10.0]),
        },
        LabelColumns {
            dates: vec![EPOCH, EPOCH + 1],
            high: prices(&[10.0, 11.0]),
            low: prices(&[10.0, 10.0]),
        },
    ];
    let kept = load_labeled(&tickers, 1);
    // Both have a value on the first day, 0.2 and 0.1; the first is alone on the second.
    assert_eq!(kept.len(), 2);
    assert_eq!((kept[0].ticker, kept[1].ticker), (0, 1));
    assert_eq!(kept[0].rows, vec![0, 1]);
    assert_eq!(kept[1].rows, vec![0]);
    assert!(kept[0].labels[0].0 > 0.0);
    assert!((kept[0].labels[0].0 + kept[1].labels[0].0).abs() < 1e-5);
    // A value without peers is its own mean.
    assert_eq!(kept[0].labels[1].0, 0.0);
}

#[test]
fn a_universe_of_one_keeps_its_rows() {
    let ticker = LabelColumns {
        dates: vec![EPOCH, EPOCH + 1, EPOCH + 2, EPOCH + 3],
        high: prices(&[10.0, 12.0, 14.0, 13.0]),
        low: prices(&[10.0, 10.0, 11.0, 12.0]),
    };
    let kept = load_labeled(&vec![ticker], 2);
    assert_eq!(kept.len(), 1);
    assert_eq!(kept[0].rows, vec![0, 1]);
    assert_eq!(kept[0].labels, vec![F32(0.0), F32(0.0)]);
}

#[test]
fn tickers_without_a_labeled_row_are_left_out() {
    let rising = |rows: i32, step: f32| LabelColumns {
        dates: (0..rows).map(|i| EPOCH + i).collect(),
        high: (0..rows).map(|i| Some(F32(10.0 + step * i as f32))).collect(),
        low: (0..rows).map(|_| Some(F32(10.0))).collect(),
    };
    let kept = load_labeled(&vec![rising(5, 1.0), rising(2, 1.0), rising(5, 2.0)], 2);
    assert_eq!(kept.len(), 2);
    assert_eq!((kept[0].ticker, kept[1].ticker), (0, 2));
    // The last two rows of each have no outcome.
    assert_eq!(kept[0].rows, vec![0, 1, 2]);
    assert_eq!(kept[1].rows, vec![0, 1, 2]);
    for row in 0..3 {
        assert!(kept[1].labels[row].0 > kept[0].labels[row].0);
    }
}

#[test]
fn an_undefined_high_leaves_the_excursion_undefined() {
    let high = prices(&[10.0, 11.0, f32::NAN, 12.0, 13.0]);
    let low = prices(&[10.0, 10.0, 10.0, 10.0, 10.0]);
    let raw = forward_mfe(&high, &low, 2);
    // The windows of the first two rows reach the third bar, that of the next one does not.
    assert!(raw[0].unwrap().0.is_nan());
    assert!(raw[1].unwrap().0.is_nan());
    assert!((raw[2].unwrap().0 - 0.3).abs() < 1e-6);
    assert!(raw[3].is_none() && raw[4].is_none());

    // An undefined value leaves the whole of its date without a rank.
    let dates = vec![EPOCH, EPOCH, EPOCH + 1];
    let raw = vec![Some(F32(f32::NAN)), Some(F32(1.0)), Some(F32(2.0))];
    let labels = zscore_label(&dates, &raw);
    assert!(labels[0].unwrap().0.is_nan() && labels[1].unwrap().0.is_nan());
    assert_eq!(labels[2].unwrap().0, 0.0);
}

#[test]
fn a_missing_price_leaves_a_row_without_an_outcome() {
    let mut high = prices(&[10.0, 11.0, 12.0, 13.0, 14.0, 15.0]);
    let mut low = prices(&[10.0; 6]);
    high[1] = None;
    low[4] = None;
    let raw = forward_mfe(&high, &low, 2);
    let present: Vec<bool> = raw.iter().map(Option::is_some).collect();
    // Row 0 lacks the next high, row 3 the next low, and the last two rows their windows.
    assert_eq!(present, vec![false, true, true, false, false, false]);

    let dates: Vec<i32> = (0..6).map(|i| EPOCH + i).collect();
    let kept = load_labeled(&vec![LabelColumns { dates, high, low }], 2);
    assert_eq!(kept[0].rows, vec![1, 2]);
}

#[test]
fn ranks_are_averaged_in_the_wider_format() {
    let dates = vec![EPOCH, EPOCH];
    // The sum of the two values, and the square of either, lies beyond single precision.
    let equal = zscore_label(&dates, &vec![Some(F32(3.0e38)), Some(F32(3.0e38))]);
    assert_eq!(equal, vec![Some(F32(0.0)), Some(F32(0.0))]);
    let apart = zscore_label(&dates, &vec![Some(F32(1.0e30)), Some(F32(-1.0e30))]);
    assert_eq!(apart[0].unwrap().0, 1.0e30f32 / (2.0f64.sqrt() * f64::from(1.0e30f32)) as f32);
    assert_eq!(apart[1].unwrap().0, -apart[0].unwrap().0);
}

#[test]
fn labeled_rows_keep_all_their_columns() {
    let make = |name: &str, rows: i32| TickerGroup {
        name: name.to_string(),
        dates: (0..rows).map(|i| EPOCH + i).collect(),
        features: (0..rows * 5).map(|i| F32(i as f32)).collect(),
        open: (0..rows).map(|i| Some(F32(100.0 + i as f32))).collect(),
        high: (0..rows).map(|i| Some(F32(10.0 + i as f32))).collect(),
        low: prices(&vec![10.0; rows as usize]),
        close: (0..rows).map(|i| Some(F32(200.0 + i as f32))).collect(),
    };
    let mut first = make("a", 5);
    // The first row lacks the high of its window.
    first.high[1] = None;
    let labeled = label_groups(&vec![first, make("short", 1), make("b", 4)], 1);
    assert_eq!(labeled.len(), 2);

    let group = &labeled[0].group;
    assert_eq!(group.name, "a");
    assert_eq!(group.dates, vec![EPOCH + 1, EPOCH + 2, EPOCH + 3]);
    assert_eq!(group.features, (5..20).map(|i| F32(i as f32)).collect::<Vec<F32>>());
    assert_eq!(group.open, prices(&[101.0, 102.0, 103.0]));
    assert_eq!(group.high, vec![None, Some(F32(12.0)), Some(F32(13.0))]);
    assert_eq!(group.low, prices(&[10.0, 10.0, 10.0]));
    assert_eq!(group.close, prices(&[201.0, 202.0, 203.0]));
    assert_eq!(labeled[0].labels, vec![0, 0, 0]);
    assert_eq!(labeled[0].rewards, vec![F32(0.0); 3]);
    assert_eq!(labeled[1].group.name, "b");
    assert_eq!(labeled[1].group.dates, vec![EPOCH, EPOCH + 1, EPOCH + 2]);

    // A price that is missing from a kept row is refused.
    assert_eq!(TickerStore::load(&labeled, 0, None).err(), Some(StoreError::NullPrice));
    let store = TickerStore::load(&labeled[1..].iter().map(|entry| LabeledGroup {
        group: TickerGroup {
            name: entry.group.name.clone(),
            dates: entry.group.dates.clone(),
            features: entry.group.features.clone(),
            open: entry.group.open.clone(),
            high: entry.group.high.clone(),
            low: entry.group.low.clone(),
            close: entry.group.close.clone(),
        },
        labels: entry.labels.clone(),
        rewards: entry.rewards.clone(),
    }).collect(), 0, None).ok().unwrap();
    assert_eq!(store.tickers[0].rows(), 3);
}

#[test]
fn rows_in_any_order_are_parted_by_code_and_sorted_by_date() {
    let rows = [("b", 2), ("a", 3), ("b", 0), ("a", 1), ("c", 5), ("a", 2), ("b", 2)];
    let table = OhlcvRows {
        codes: rows.iter().map(|(code, _)| code.to_string()).collect(),
        dates: rows.iter().map(|(_, day)| EPOCH + day).collect(),
        features: (0..rows.len() * 5).map(|i| F32(i as f32)).collect(),
    };
    let groups = part_rows(&table.codes, &table.dates);
    let parted: Vec<(&str, &[usize])> =
        groups.iter().map(|group| (group.code.as_str(), group.rows.as_slice())).collect();
    // Rows of one date stand as they stood in the table.
    assert_eq!(parted, vec![("a", &[3, 5, 1][..]), ("b", &[2, 0, 6][..]), ("c", &[4][..])]);

    let tickers = group_rows(&table);
    assert_eq!(tickers.len(), 3);
    assert_eq!(tickers[0].name, "a");
    assert_eq!(tickers[0].dates, vec![EPOCH + 1, EPOCH + 2, EPOCH + 3]);
    let first: Vec<f32> = tickers[0].features.iter().map(|value| value.0).collect();
    let expected: Vec<f32> =
        [3usize, 5, 1].iter().flat_map(|row| (0..5).map(move |i| (row * 5 + i) as f32)).collect();
    assert_eq!(first, expected);

    let loaded: Vec<OhlcvGroup<F32>> = tickers
        .into_iter()
        .map(|columns| {
            let labels = vec![1; columns.dates.len() - 1];
            OhlcvGroup::new(columns, labels)
        })
        .collect();
    let loader = StockDataLoader::load(&loaded, 2, 1, None, None);
    let names: Vec<&str> = loader.tickers.iter().map(|ticker| ticker.name.as_str()).collect();
    assert_eq!(names, vec!["a", "b"]);
    assert_eq!(loader.tickers[1].dates, vec![EPOCH, EPOCH + 2]);
}

fn logits(rows: &[[f32; 3]]) -> Vec<Vec<F32>> {
    rows.iter().map(|row| row.iter().map(|value| F32(*value)).collect()).collect()
}

#[test]
fn ev_averages_buy_payoff() {
    // Predictions argmax to Buy, Hold, Buy.
    let logits = logits(&[[0.0, 0.0, 1.0], [0.0, 1.0, 0.0], [0.0, 0.0, 1.0]]);
    let targets = vec![2, 1, 2];
    let reward = vec![F32(0.10), F32(0.50), F32(-0.04)];

    let mut metric = ExpectedValueMetric::new(F32(0.01));
    metric.update(&StockEvalInput::new(logits, targets, reward));

    // Buy rows 0 and 2 only: (0.10 - 0.01) + (-0.04 - 0.01) = 0.04 over two trades, so 2%.
    // Hold contributes nothing.
    assert!((metric.last.unwrap().value.0 - 2.0).abs() < 1e-4);
    assert_eq!(metric.last.unwrap().count, 2);
    assert_eq!(metric.name, "EV");
    metric.clear();
    assert!(metric.last.is_none());
}

#[test]
fn precision_counts_true_buys() {
    // Predictions argmax to Buy, Buy, Hold.
    let logits = logits(&[[0.0, 0.0, 1.0], [0.0, 0.0, 1.0], [0.0, 1.0, 0.0]]);
    let targets = vec![2, 0, 1];
    let reward = vec![F32(0.0); 3];

    let mut metric = PrecisionClassMetric::<F32>::new(2, "Buy");
    metric.update(&StockEvalInput::new(logits, targets, reward));

    // Two rows predicted Buy, only the first is truly Buy, so 50%.
    assert!((metric.last.unwrap().value.0 - 50.0).abs() < 1e-4);
    assert_eq!(metric.name, "Precision Buy");
    metric.clear();
    assert!(metric.last.is_none());
}

#[test]
fn metrics_are_zero_without_predictions_of_the_class() {
    let input = || {
        StockEvalInput::new(logits(&[[1.0, 0.0, 0.0]]), vec![0], vec![F32(0.3)])
    };
    let entry = ExpectedValueMetric::new(F32(0.01)).update(&input());
    assert_eq!(entry.value.0, 0.0);
    assert_eq!(entry.count, 0);
    let entry = PrecisionClassMetric::<F32>::new(2, "Buy").update(&input());
    assert_eq!(entry.value.0, 0.0);
    // The first of several largest logits wins.
    assert_eq!(argmax(&vec![F32(1.0), F32(2.0), F32(2.0)]), 1);
}

#[test]
fn correlation_is_one_for_aligned_scores() {
    // A perfect linear relationship: targets = 2 * predictions, so corr == 1.
    let predictions = [1.0, 2.0, 3.0, 4.0].into_iter().map(F32).collect();
    let targets = [2.0, 4.0, 6.0, 8.0].into_iter().map(F32).collect();

    let mut metric = CorrelationMetric::new();
    metric.update(&RankInput { predictions, targets });

    assert!((metric.last.unwrap().value.0 - 1.0).abs() < 1e-4);
    assert_eq!(metric.last.unwrap().count, 4);
}

#[test]
fn correlation_is_negative_for_reversed_scores() {
    let predictions = [1.0, 2.0, 3.0, 4.0].into_iter().map(F32).collect();
    let targets = [4.0, 3.0, 2.0, 1.0].into_iter().map(F32).collect();

    let mut metric = CorrelationMetric::new();
    metric.update(&RankInput { predictions, targets });

    assert!((metric.last.unwrap().value.0 + 1.0).abs() < 1e-4);
    metric.clear();
    assert!(metric.last.is_none());
    assert_eq!(metric.name, "Correlation");
}

#[test]
fn figures_are_divided_in_the_wider_format() {
    let input = StockEvalInput::new(logits(&[[0.0, 0.0, 1.0]]), vec![2], vec![F32(0.1)]);
    let entry = ExpectedValueMetric::new(F32(0.01)).update(&input);
    assert_eq!(entry.value.0, 100.0 * f64::from(0.1f32 - 0.01f32));

    let all_buys = [[0.0, 0.0, 1.0]; 3];
    let input = StockEvalInput::new(logits(&all_buys), vec![2, 0, 0], vec![F32(0.0); 3]);
    let entry = PrecisionClassMetric::<F32>::new(2, "Buy").update(&input);
    assert_eq!(entry.value.0, 100.0 / 3.0);

    // Both columns have the mean 2 and the mean square 2/3 about it; their mean product is 1/3.
    let predictions = [1.0, 2.0, 3.0].into_iter().map(F32).collect();
    let targets = [1.0, 3.0, 2.0].into_iter().map(F32).collect();
    let entry = CorrelationMetric::new().update(&RankInput { predictions, targets });
    let (covariance, variance) = (f64::from(1.0f32 / 3.0), f64::from(2.0f32 / 3.0));
    let spread = variance.sqrt() * variance.sqrt();
    assert_eq!(entry.value.0, covariance / (spread + 1.0e-12));
}

fn no_optimizer() -> OptimizerConfig<F32> {
    OptimizerConfig { weight_decay: None, beta_1: None, beta_2: None, epsilon: None }
}

#[test]
fn epochs_cover_the_passes() {
    let mut config = TrainingConfig::new(StockModelConfig::<F64>::new(), no_optimizer());
    config.epoch_size = 2;
    config.batch_size = 5;
    config.passes = 3;
    assert_eq!(
        schedule(&config, 25),
        Ok(Schedule { epoch_items: 10, num_epochs: 8 })
    );
    assert_eq!(schedule(&config, 7), Ok(Schedule { epoch_items: 7, num_epochs: 3 }));
    config.passes = 0;
    assert_eq!(schedule(&config, 7), Ok(Schedule { epoch_items: 7, num_epochs: 1 }));
    let error = schedule(&config, 0).unwrap_err();
    assert_eq!(error, TrainError::NoWindows);
    assert_eq!(error.message(), "no training windows; check steps and the train/valid split");
    assert_eq!(valid_cap(3, 4, 100), 12);
    assert_eq!(valid_cap(3, 4, 5), 5);
}

#[test]
fn a_run_is_split_before_its_latest_date() {
    let options = RunOptions {
        valid_batches: None,
        max_tickers: None,
        valid_days: 5,
        patience: None,
    };
    let prepared = prepare(synthetic(3, 20), &options, 4, 42).ok().unwrap();
    assert_eq!(prepared.cutoff, EPOCH + 14);
    assert_eq!(prepared.train.tickers[0].rows(), 14);
    assert_eq!(prepared.valid.tickers[0].rows(), 6);

    let buckets = synthetic(3, 20).set_industries(vec![0, 1, 2], 4);
    let prepared = prepare(buckets, &options, 4, 42).ok().unwrap();
    assert_eq!((prepared.train.n_industries, prepared.valid.n_industries), (4, 4));

    let trimmed = RunOptions { max_tickers: Some(2), ..options };
    let prepared = prepare(synthetic(3, 20), &trimmed, 4, 42).ok().unwrap();
    assert_eq!(prepared.train.ticker_count(), 2);
    assert_eq!(prepared.valid.ticker_count(), 2);

    let short = RunOptions { valid_days: 30, ..options };
    let error = prepare(synthetic(3, 20), &short, 4, 42).err().unwrap();
    assert_eq!(error, TrainError::Store(StoreError::EmptySplit));
    assert_eq!(
        error.message(),
        "train/valid split left one side empty; check cutoff and steps"
    );
}

#[test]
fn the_first_lowest_loss_on_disk_is_best() {
    let entry = |step: usize, value: f32, on_disk: bool| LossEntry { step, value: F32(value), on_disk };
    let entries = vec![
        entry(1, 0.9, true),
        entry(2, 0.1, false),
        entry(3, 0.4, true),
        entry(4, 0.4, true),
        entry(5, f32::NAN, true),
        entry(6, 0.5, true),
    ];
    assert_eq!(best_valid_loss_epoch(&entries), Some(3));
    assert_eq!(best_valid_loss_epoch(&vec![entry(2, 0.1, false)]), None);
    assert_eq!(best_valid_loss_epoch(&Vec::<LossEntry<F32>>::new()), None);
}

fn flags() -> TrainArgs<F32> {
    TrainArgs {
        d_hidden: None,
        d_head: None,
        dropout: None,
        learning_rate: None,
        weight_decay: None,
        beta_1: None,
        beta_2: None,
        epsilon: None,
        passes: None,
        batches_per_epoch: None,
        batch_size: None,
        window_steps: None,
        seed: None,
        huber_delta: None,
        label_horizon: None,
        valid_batches: 200,
        valid_days: 180,
        max_tickers: None,
        patience: 5,
    }
}

#[test]
fn omitted_flags_fall_through_to_the_tuned_defaults() {
    let config = flags().training_config();
    assert_eq!(config.model.d_hidden, 64);
    assert_eq!(config.model.d_head, 32);
    assert_eq!(config.model.dropout.0, 0.2);
    assert_eq!(config.learning_rate.0, 1.0e-4);
    assert_eq!(config.take_profit.0, 0.09);
    assert_eq!(config.fee.0, 0.005_85);
    assert_eq!((config.passes, config.steps, config.batch_size), (3, 30, 64));
    assert_eq!((config.epoch_size, config.seed, config.label_horizon), (200, 42, 25));
    assert_eq!(config.huber_delta, None);

    let mut args = flags();
    args.d_hidden = Some(8);
    args.window_steps = Some(12);
    args.batches_per_epoch = Some(7);
    args.weight_decay = Some(F32(0.5));
    args.huber_delta = Some(F32(1.5));
    let config = args.training_config();
    assert_eq!(config.model.d_hidden, 8);
    assert_eq!(config.steps, 12);
    assert_eq!(config.epoch_size, 7);
    assert_eq!(config.optimizer.weight_decay, Some(F32(0.5)));
    assert_eq!(config.huber_delta, Some(F32(1.5)));
    assert_eq!(config.batch_size, 64);
}

#[test]
fn a_zero_flag_means_no_limit() {
    let mut args = flags();
    assert_eq!(args.run_options().valid_batches, Some(200));
    assert_eq!(args.run_options().patience, Some(5));
    assert_eq!(args.run_options().valid_days, 180);
    args.valid_batches = 0;
    args.patience = 0;
    args.max_tickers = Some(3);
    assert_eq!(args.run_options().valid_batches, None);
    assert_eq!(args.run_options().patience, None);
    assert_eq!(args.run_options().max_tickers, Some(3));
}

#[test]
fn day_numbers_span_every_date() {
    assert_eq!(NaiveDate::MIN.num_days_from_ce(), MIN_DAY);
    assert_eq!(NaiveDate::MAX.num_days_from_ce(), MAX_DAY);
    assert_eq!(NaiveDate::from_ymd_opt(1970, 1, 1).unwrap().num_days_from_ce(), EPOCH);
}

#[test]
fn the_cutoff_may_be_the_first_date_there_is() {
    let mut store = synthetic(1, 2);
    store.tickers[0].history.dates = vec![MIN_DAY, MIN_DAY + 7];
    let error = split_recent(&store, 7, 1).err().unwrap();
    assert_eq!(error, TrainError::Store(StoreError::EmptySplit));
    let split = split_recent(&store, 6, 1).ok().unwrap();
    assert_eq!(split.cutoff, MIN_DAY + 1);
    // A negative span reaches past the latest date.
    assert!(split_recent(&store, -1, 1).is_err());
}

#[test]
fn orders_come_from_the_seeded_generator() {
    let loader = make_loader(3, 20, 4, 2, Some(5), 0);
    let mut expected: Vec<u32> = (0..51).collect();
    fastrand::Rng::with_seed(splitmix64(5, 3)).shuffle(&mut expected);
    assert_eq!(loader.epoch_order(&mut EpochCounter { next: 3 }), expected);

    let drawn = fastrand::Rng::with_seed(7).choose_multiple(0..10usize, 4);
    let sample = synthetic(10, 5).sample_tickers(4, 7);
    let names: Vec<String> = sample.tickers.iter().map(|t| t.history.name.clone()).collect();
    let expected: Vec<String> = drawn.iter().map(|index| format!("t{index}")).collect();
    assert_eq!(names, expected);
}
