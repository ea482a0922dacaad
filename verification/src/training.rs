//! Preparing and scheduling a training run.
use vstd::prelude::*;

use crate::calendar::days_before;
#[allow(unused_imports)]
use crate::calendar::valid_day;
#[allow(unused_imports)]
use crate::history::{ascending, latest, latest_is_the_maximum};
use crate::number::{Narrow, Number};
#[allow(unused_imports)]
use crate::number::{exceeds_is, ratio_is};
#[allow(unused_imports)]
use crate::random::{chosen_indices, is_draw};
use crate::store::{StoreError, TickerStore};
#[allow(unused_imports)]
use crate::store::{
    all_wf, date_columns, sampled, split_sides_are_apart, train_side, valid_side, TickerView,
};

pub mod batcher;
pub mod dataset;
pub mod meaning;
pub mod metric;

verus! {

/// Hyperparameters of the model.
#[derive(Clone, Copy)]
pub struct StockModelConfig<N> {
    /// GRU hidden size, the temporal summary width.
    pub d_hidden: usize,
    /// Hidden width of the MLP head.
    pub d_head: usize,
    /// Dropout probability applied in the head.
    pub dropout: N,
}

impl<N: Number> StockModelConfig<N> {
    /// The default model.
    pub fn new() -> (config: Self)
        ensures
            config.d_hidden == 64,
            config.d_head == 32,
            ratio_is(2, 10, config.dropout),
    {
        StockModelConfig { d_hidden: 64, d_head: 32, dropout: N::from_ratio(2, 10) }
    }
}

/// Settings of the optimizer; `None` leaves one at the optimizer's own default.
#[derive(Clone, Copy)]
pub struct OptimizerConfig<N> {
    pub weight_decay: Option<N>,
    pub beta_1: Option<N>,
    pub beta_2: Option<N>,
    pub epsilon: Option<N>,
}

/// Top-level training configuration.
#[derive(Clone, Copy)]
pub struct TrainingConfig<N: Narrow> {
    pub model: StockModelConfig<N::Wide>,
    pub optimizer: OptimizerConfig<N>,
    pub learning_rate: N::Wide,
    /// Take-profit barrier, a positive fraction of the entry close.
    pub take_profit: N,
    /// Stop-loss barrier, a positive fraction of the entry close.
    pub stop_loss: N,
    /// Vertical-barrier horizon in trading days.
    pub label_horizon: usize,
    /// Round-trip transaction cost per position. 0.1425% per leg plus 0.3% sell tax is
    /// 0.585%.
    pub fee: N,
    /// Full passes over the training data; `passes * windows / epoch_size` epochs run.
    pub passes: usize,
    /// Window length fed to the GRU.
    pub steps: usize,
    /// Tickers per batch.
    pub batch_size: usize,
    /// Batches per epoch, setting the validation cadence. Each epoch samples
    /// `epoch_size * batch_size` windows without replacement.
    pub epoch_size: usize,
    pub seed: u64,
    /// Residual size where the loss switches from squared to linear; `None` leaves it to the
    /// loss.
    pub huber_delta: Option<N>,
}

impl<N: Narrow> TrainingConfig<N> {
    /// The baseline configuration of a model and an optimizer.
    pub fn new(model: StockModelConfig<N::Wide>, optimizer: OptimizerConfig<N>) -> (config: Self)
        ensures
            config.model == model,
            config.optimizer == optimizer,
            ratio_is(1, 1_000, config.learning_rate),
            ratio_is(5, 100, config.take_profit),
            ratio_is(5, 100, config.stop_loss),
            config.label_horizon == 10,
            ratio_is(585, 100_000, config.fee),
            config.passes == 1,
            config.steps == 20,
            config.batch_size == 64,
            config.epoch_size == 1_000,
            config.seed == 42,
            config.huber_delta is None,
    {
        TrainingConfig {
            model,
            optimizer,
            learning_rate: N::Wide::from_ratio(1, 1_000),
            take_profit: N::from_ratio(5, 100),
            stop_loss: N::from_ratio(5, 100),
            label_horizon: 10,
            fee: N::from_ratio(585, 100_000),
            passes: 1,
            steps: 20,
            batch_size: 64,
            epoch_size: 1_000,
            seed: 42,
            huber_delta: None,
        }
    }

    /// The tuned configuration of a model and an optimizer, which the flags of the command
    /// line start from.
    pub fn tuned(model: StockModelConfig<N::Wide>, optimizer: OptimizerConfig<N>) -> (config: Self)
        ensures
            config.model == model,
            config.optimizer == optimizer,
            ratio_is(1, 10_000, config.learning_rate),
            ratio_is(9, 100, config.take_profit),
            ratio_is(9, 100, config.stop_loss),
            config.label_horizon == 25,
            ratio_is(585, 100_000, config.fee),
            config.passes == 3,
            config.steps == 30,
            config.batch_size == 64,
            config.epoch_size == 200,
            config.seed == 42,
            config.huber_delta is None,
    {
        TrainingConfig {
            model,
            optimizer,
            learning_rate: N::Wide::from_ratio(1, 10_000),
            take_profit: N::from_ratio(9, 100),
            stop_loss: N::from_ratio(9, 100),
            label_horizon: 25,
            fee: N::from_ratio(585, 100_000),
            passes: 3,
            steps: 30,
            batch_size: 64,
            epoch_size: 200,
            seed: 42,
            huber_delta: None,
        }
    }
}

/// Runtime knobs that shape one run without touching the model or optimizer config.
#[derive(Debug, Clone, Copy, PartialEq, Eq, Structural)]
pub struct RunOptions {
    /// Fixed-seed validation subsample size in batches; `None` sweeps every window.
    pub valid_batches: Option<usize>,
    /// Random ticker-subset cap for overfit diagnostics; `None` uses every ticker.
    pub max_tickers: Option<usize>,
    /// Length in days of the recent validation window; everything before it trains.
    pub valid_days: i64,
    /// Epochs without validation-loss improvement before stopping; `None` disables.
    pub patience: Option<usize>,
}

/// Why a run cannot start.
#[derive(Clone, Copy, Debug, PartialEq, Eq, Structural)]
pub enum TrainError {
    /// The data could not be split.
    Store(StoreError),
    /// The train side has no window.
    NoWindows,
}

impl TrainError {
    /// The message for the user.
    pub fn message(&self) -> (text: &'static str)
        ensures
            text@ == (match *self {
                TrainError::Store(StoreError::NullPrice) => "price column must not contain nulls"@,
                TrainError::Store(StoreError::EmptySplit) =>
                    "train/valid split left one side empty; check cutoff and steps"@,
                TrainError::NoWindows =>
                    "no training windows; check steps and the train/valid split"@,
            }),
    {
        match self {
            TrainError::Store(error) => error.message(),
            TrainError::NoWindows => "no training windows; check steps and the train/valid split",
        }
    }
}

/// How long a run trains.
#[derive(Clone, Copy, Debug, PartialEq, Eq, Structural)]
pub struct Schedule {
    /// Windows per epoch.
    pub epoch_items: usize,
    pub num_epochs: usize,
}

/// The smaller of two counts.
pub open spec fn least(a: int, b: int) -> int {
    if a <= b {
        a
    } else {
        b
    }
}

/// `a / b`, rounded up.
pub open spec fn ceiling(a: int, b: int) -> int {
    (a + b - 1) / b
}

/// Fit the number of epochs to the passes over the data: each epoch takes `epoch_size`
/// batches, or every window if there are fewer, and as many epochs run as the passes need,
/// at least one. Errors if there are no windows.
pub fn schedule<N: Narrow>(config: &TrainingConfig<N>, total_windows: usize) -> (schedule: Result<
    Schedule,
    TrainError,
>)
    requires
        total_windows > 0 ==> {
            &&& config.epoch_size > 0
            &&& config.batch_size > 0
            &&& config.epoch_size * config.batch_size <= usize::MAX
            &&& config.passes * total_windows <= usize::MAX
        },
    ensures
        total_windows == 0 ==> schedule == Err::<Schedule, TrainError>(TrainError::NoWindows),
        total_windows > 0 ==> (schedule matches Ok(plan) && {
            &&& plan.epoch_items == least(
                config.epoch_size * config.batch_size,
                total_windows as int,
            )
            &&& plan.num_epochs == (if config.passes == 0 {
                1
            } else {
                ceiling(config.passes * total_windows, plan.epoch_items as int)
            })
        }),
{
    if total_windows == 0 {
        return Err(TrainError::NoWindows);
    }
    let budget: usize = config.epoch_size * config.batch_size;
    assert(budget > 0) by (nonlinear_arith)
        requires
            budget == config.epoch_size * config.batch_size,
            config.epoch_size > 0,
            config.batch_size > 0,
    ;
    let epoch_items: usize = if budget <= total_windows {
        budget
    } else {
        total_windows
    };
    let work: usize = config.passes * total_windows;
    let num_epochs: usize = if work == 0 {
        1
    } else {
        (work - 1) / epoch_items + 1
    };
    proof {
        if config.passes > 0 {
            assert(work > 0) by (nonlinear_arith)
                requires
                    work == config.passes * total_windows,
                    config.passes > 0,
                    total_windows > 0,
            ;
            vstd::arithmetic::div_mod::lemma_div_plus_one(work - 1, epoch_items as int);
            vstd::arithmetic::div_mod::lemma_div_is_ordered_by_denominator(
                work - 1,
                1,
                epoch_items as int,
            );
            vstd::arithmetic::div_mod::lemma_div_basics(work - 1);
        } else {
            assert(work == 0) by (nonlinear_arith)
                requires
                    work == config.passes * total_windows,
                    config.passes == 0,
            ;
        }
    }
    Ok(Schedule { epoch_items, num_epochs })
}

/// The epochs of a schedule are as few as cover the passes over the data.
pub proof fn epochs_cover_the_passes(passes: int, windows: int, epoch_items: int)
    requires
        passes > 0,
        windows > 0,
        epoch_items > 0,
    ensures
        ({
            let epochs = ceiling(passes * windows, epoch_items);
            &&& epochs >= 1
            &&& epochs * epoch_items >= passes * windows
            &&& (epochs - 1) * epoch_items < passes * windows
        }),
{
    let work = passes * windows;
    assert(work > 0) by (nonlinear_arith)
        requires
            work == passes * windows,
            passes > 0,
            windows > 0,
    ;
    vstd::arithmetic::div_mod::lemma_div_plus_one(work - 1, epoch_items);
    vstd::arithmetic::div_mod::lemma_div_pos_is_pos(work - 1, epoch_items);
    vstd::arithmetic::div_mod::lemma_fundamental_div_mod(work - 1, epoch_items);
    vstd::arithmetic::div_mod::lemma_mod_bound(work - 1, epoch_items);
    let below = (work - 1) / epoch_items;
    assert(below * epoch_items == epoch_items * below) by (nonlinear_arith);
    assert((below + 1) * epoch_items == below * epoch_items + epoch_items) by (nonlinear_arith);
}

/// How many of `available` validation windows a cap of `batches` batches keeps.
pub fn valid_cap(batches: usize, batch_size: usize, available: usize) -> (cap: usize)
    requires
        batches * batch_size <= usize::MAX,
    ensures
        cap == least(batches * batch_size, available as int),
{
    let budget: usize = batches * batch_size;
    if budget <= available {
        budget
    } else {
        available
    }
}

/// The tickers that a run uses: a random subset if asked for, reproducible by the seed.
pub open spec fn run_tickers<T>(
    tickers: Seq<TickerView<T>>,
    options: RunOptions,
    seed: u64,
) -> Seq<TickerView<T>> {
    match options.max_tickers {
        Some(count) => sampled(tickers, count, seed),
        None => tickers,
    }
}

/// The first day that validates: `valid_days` before the latest date.
pub open spec fn cutoff_of<T>(tickers: Seq<TickerView<T>>, valid_days: i64) -> i32 {
    (latest(date_columns(tickers))->0 - valid_days) as i32
}

/// The data of a run, split at the cutoff.
pub struct Prepared<T> {
    pub train: TickerStore<T>,
    pub valid: TickerStore<T>,
    /// First day that validates.
    pub cutoff: i32,
}

/// A date and the cutoff that it would give are both dates.
pub open spec fn cutoff_exists(day: i32, valid_days: i64) -> bool {
    valid_day(day as int) && valid_day(day - valid_days)
}

/// There is a latest date, and a cutoff `valid_days` before it.
pub open spec fn has_cutoff<T>(tickers: Seq<TickerView<T>>, valid_days: i64) -> bool {
    latest(date_columns(tickers)) matches Some(day) && cutoff_exists(day, valid_days)
}

/// `prepared` is what splitting `tickers` at their cutoff gives: both sides, each without the
/// tickers too short for a window and with the same `n_industries`, or an error if a side is
/// left empty.
pub open spec fn split_is<T>(
    tickers: Seq<TickerView<T>>,
    n_industries: usize,
    valid_days: i64,
    steps: nat,
    prepared: Result<Prepared<T>, TrainError>,
) -> bool {
    let cutoff = cutoff_of(tickers, valid_days);
    let train = train_side(tickers, cutoff, steps);
    let valid = valid_side(tickers, cutoff, steps);
    match prepared {
        Ok(sides) => {
            &&& train.len() > 0
            &&& valid.len() > 0
            &&& sides.train@ == train
            &&& sides.valid@ == valid
            &&& sides.train.n_industries == n_industries
            &&& sides.valid.n_industries == n_industries
            &&& sides.cutoff == cutoff
            &&& all_wf(sides.train@)
            &&& all_wf(sides.valid@)
        },
        Err(error) => error == TrainError::Store(StoreError::EmptySplit) && (train.len() == 0
            || valid.len() == 0),
    }
}

/// Split the store `valid_days` before its latest date, so that everything earlier trains.
/// One global cutoff keeps the split aligned across tickers.
pub fn split_recent<T: Copy>(store: &TickerStore<T>, valid_days: i64, steps: usize) -> (prepared:
    Result<Prepared<T>, TrainError>)
    requires
        all_wf(store@),
        has_cutoff(store@, valid_days),
    ensures
        split_is(store@, store.n_industries, valid_days, steps as nat, prepared),
{
    let cutoff = match store.max_date() {
        None => None,
        Some(day) => days_before(day, valid_days),
    };
    match cutoff {
        None => {
            assert(false);
            Err(TrainError::NoWindows)
        },
        Some(cutoff) => {
            proof {
                split_sides_are_apart(store@, cutoff, steps as nat);
            }
            match store.train_valid_split(cutoff, steps) {
                Ok((train, valid)) => Ok(Prepared { train, valid, cutoff }),
                Err(error) => Err(TrainError::Store(error)),
            }
        },
    }
}

/// Whichever tickers a run draws, they have a cutoff.
pub open spec fn run_has_cutoff<T>(tickers: Seq<TickerView<T>>, options: RunOptions) -> bool {
    match options.max_tickers {
        Some(count) if count < tickers.len() => {
            &&& count > 0
            &&& forall|t: int|
                0 <= t < tickers.len() ==> (#[trigger] tickers[t]).history.rows() > 0
            &&& forall|t: int|
                0 <= t < tickers.len() ==> cutoff_exists(
                    (#[trigger] tickers[t]).history.dates.last(),
                    options.valid_days,
                )
        },
        _ => has_cutoff(tickers, options.valid_days),
    }
}

proof fn lemma_drawn_tickers<T>(tickers: Seq<TickerView<T>>, options: RunOptions, seed: u64)
    requires
        all_wf(tickers),
        run_has_cutoff(tickers, options),
        options.max_tickers matches Some(count) ==> count < tickers.len() ==> is_draw(
            chosen_indices(usize::BITS, seed, tickers.len(), count as nat),
            tickers.len(),
            count as nat,
        ),
    ensures
        all_wf(run_tickers(tickers, options, seed)),
        has_cutoff(run_tickers(tickers, options, seed), options.valid_days),
{
    let used = run_tickers(tickers, options, seed);
    match options.max_tickers {
        Some(count) if count < tickers.len() => {
            let drawn = chosen_indices(usize::BITS, seed, tickers.len(), count as nat);
            assert forall|t: int| 0 <= t < used.len() implies (#[trigger] used[t]).wf() by {
                assert(drawn[t] < tickers.len());
                assert(used[t] == tickers[drawn[t] as int]);
                assert(tickers[drawn[t] as int].wf());
            }
            let columns = date_columns(used);
            assert forall|c: int| 0 <= c < columns.len() implies ascending(
                #[trigger] columns[c],
            ) by {
                assert(used[c].wf());
            }
            latest_is_the_maximum(columns);
            assert(drawn[0] < tickers.len());
            assert(used[0] == tickers[drawn[0] as int]);
            assert(columns[0] == used[0].history.dates);
            let day = latest(columns)->0;
            let (c, r) = choose|c: int, r: int|
                0 <= c < columns.len() && 0 <= r < columns[c].len() && #[trigger] columns[c][r]
                    == day;
            assert(drawn[c] < tickers.len());
            assert(used[c] == tickers[drawn[c] as int]);
            assert(cutoff_exists(
                tickers[drawn[c] as int].history.dates[r],
                options.valid_days,
            ));
        },
        _ => {
            assert(used =~= tickers);
        },
    }
}

/// Trim the store to the run's tickers and split it `valid_days` before its latest date.
/// Trimming comes first so both sides shrink together.
pub fn prepare<T: Copy>(
    store: TickerStore<T>,
    options: &RunOptions,
    steps: usize,
    seed: u64,
) -> (prepared: Result<Prepared<T>, TrainError>)
    requires
        all_wf(store@),
        run_has_cutoff(store@, *options),
    ensures
        split_is(
            run_tickers(store@, *options, seed),
            store.n_industries,
            options.valid_days,
            steps as nat,
            prepared,
        ),
{
    let ghost given = store@;
    let trimmed = match options.max_tickers {
        Some(count) => store.sample_tickers(count, seed),
        None => store,
    };
    proof {
        assert(trimmed@ == run_tickers(given, *options, seed));
        lemma_drawn_tickers(given, *options, seed);
    }
    split_recent(&trimmed, options.valid_days, steps)
}

/// A loss that was logged for one epoch, and whether that epoch's checkpoint is on disk.
#[derive(Clone, Copy)]
pub struct LossEntry<N> {
    /// The epoch, counted from one.
    pub step: usize,
    pub value: N,
    pub on_disk: bool,
}

/// Of the first `count` entries with a checkpoint, the one with the lowest loss, the first
/// of several, is at `best`.
pub open spec fn best_is<N: Number>(
    entries: Seq<LossEntry<N>>,
    count: nat,
    best: Option<int>,
) -> bool
    decreases count,
{
    if count == 0 {
        best is None
    } else {
        let entry = entries[count - 1];
        exists|earlier: Option<int>| #[trigger]
            better_of(entries, count - 1, earlier, best) && best_is(
                entries,
                (count - 1) as nat,
                earlier,
            )
    }
}

/// `best` is where the lower loss stands: at `earlier`, or at `at` if that has a checkpoint
/// and a lower loss or nothing stands at `earlier`.
pub open spec fn better_of<N: Number>(
    entries: Seq<LossEntry<N>>,
    at: int,
    earlier: Option<int>,
    best: Option<int>,
) -> bool {
    if !entries[at].on_disk {
        best == earlier
    } else {
        match earlier {
            None => best == Some(at),
            Some(held) => exists|above: bool| #[trigger]
                exceeds_is(entries[held].value, entries[at].value, above) && best == (if above {
                    Some(at)
                } else {
                    Some(held)
                }),
        }
    }
}

/// Epoch of the lowest-loss checkpoint still on disk, if there is one.
pub fn best_valid_loss_epoch<N: Number>(entries: &Vec<LossEntry<N>>) -> (epoch: Option<usize>)
    ensures
        exists|best: Option<int>|
            {
                &&& #[trigger] best_is(entries@, entries@.len(), best)
                &&& match best {
                    Some(at) => 0 <= at < entries@.len() && epoch == Some(entries@[at].step),
                    None => epoch is None,
                }
            },
{
    let mut best: Option<usize> = None;
    let ghost mut place: Option<int> = None;
    let mut at: usize = 0;
    while at < entries.len()
        invariant
            at <= entries.len(),
            best_is(entries@, at as nat, place),
            best is Some == place is Some,
            best matches Some(held) ==> held < at && place == Some(held as int),
        decreases entries.len() - at,
    {
        let ghost earlier = place;
        if entries[at].on_disk {
            match best {
                None => {
                    best = Some(at);
                    proof {
                        place = Some(at as int);
                    }
                },
                Some(held) => {
                    let above = entries[held].value.exceeds(entries[at].value);
                    assert(exceeds_is(
                        entries@[held as int].value,
                        entries@[at as int].value,
                        above,
                    ));
                    if above {
                        best = Some(at);
                        proof {
                            place = Some(at as int);
                        }
                    }
                },
            }
        }
        at = at + 1;
        proof {
            let count = at as nat;
            assert(better_of(entries@, count - 1, earlier, place));
            assert(best_is(entries@, (count - 1) as nat, earlier));
        }
    }
    assert(best_is(entries@, entries@.len(), place));
    match best {
        Some(held) => Some(entries[held].step),
        None => None,
    }
}

} // verus!
