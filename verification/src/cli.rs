//! What the command-line flags mean.
use vstd::prelude::*;

use crate::number::Narrow;
#[allow(unused_imports)]
use crate::number::{exact, ratio_is};
use crate::training::{OptimizerConfig, RunOptions, StockModelConfig, TrainingConfig};

verus! {

/// The flags of a training run. Every hyperparameter is an `Option` so an omitted flag falls
/// through to its default, keeping one source of truth.
#[derive(Clone, Copy)]
pub struct TrainArgs<N: Narrow> {
    /// GRU hidden size; smaller trains faster.
    pub d_hidden: Option<usize>,
    /// MLP head hidden width.
    pub d_head: Option<usize>,
    /// Dropout probability in the head.
    pub dropout: Option<N::Wide>,
    /// Learning rate for the optimizer.
    pub learning_rate: Option<N::Wide>,
    /// L2 weight decay.
    pub weight_decay: Option<N>,
    /// First-moment decay.
    pub beta_1: Option<N>,
    /// Second-moment decay.
    pub beta_2: Option<N>,
    /// Denominator stability.
    pub epsilon: Option<N>,
    /// Number of full passes over the training data.
    pub passes: Option<usize>,
    /// Training batches per epoch, the validation cadence.
    pub batches_per_epoch: Option<usize>,
    /// Tickers per batch, shared by training and validation.
    pub batch_size: Option<usize>,
    /// Input window length in trading days.
    pub window_steps: Option<usize>,
    /// Seed for split, sampling, and init.
    pub seed: Option<u64>,
    /// Residual size where the loss switches from squared to linear.
    pub huber_delta: Option<N>,
    /// Forward horizon in trading days that the target looks ahead.
    pub label_horizon: Option<usize>,
    /// Validation batches per epoch; 0 sweeps every window.
    pub valid_batches: usize,
    /// Length in days of the recent validation window; everything before it trains.
    pub valid_days: i64,
    /// Keep only this many tickers, drawn at random by the seed.
    pub max_tickers: Option<usize>,
    /// Stop early after this many epochs without validation-loss improvement; 0 disables.
    pub patience: usize,
}

/// A flag's value, the default where it is omitted.
pub open spec fn given_or<T>(flag: Option<T>, default: T) -> T {
    match flag {
        Some(value) => value,
        None => default,
    }
}

/// A flag's value, the default where it is omitted.
fn or_default<T: Copy>(flag: Option<T>, default: T) -> (value: T)
    ensures
        value == given_or(flag, default),
{
    match flag {
        Some(value) => value,
        None => default,
    }
}

/// `config` is `base` with every given flag in place of its setting.
pub open spec fn folded<N: Narrow>(
    args: TrainArgs<N>,
    base: TrainingConfig<N>,
    config: TrainingConfig<N>,
) -> bool {
    &&& config.model.d_hidden == given_or(args.d_hidden, base.model.d_hidden)
    &&& config.model.d_head == given_or(args.d_head, base.model.d_head)
    &&& config.model.dropout == given_or(args.dropout, base.model.dropout)
    &&& config.optimizer.weight_decay == args.weight_decay
    &&& config.optimizer.beta_1 == args.beta_1
    &&& config.optimizer.beta_2 == args.beta_2
    &&& config.optimizer.epsilon == args.epsilon
    &&& config.learning_rate == given_or(args.learning_rate, base.learning_rate)
    &&& config.passes == given_or(args.passes, base.passes)
    &&& config.epoch_size == given_or(args.batches_per_epoch, base.epoch_size)
    &&& config.batch_size == given_or(args.batch_size, base.batch_size)
    &&& config.steps == given_or(args.window_steps, base.steps)
    &&& config.seed == given_or(args.seed, base.seed)
    &&& config.label_horizon == given_or(args.label_horizon, base.label_horizon)
    &&& config.huber_delta == args.huber_delta
    &&& config.take_profit == base.take_profit
    &&& config.stop_loss == base.stop_loss
    &&& config.fee == base.fee
}

/// `base` is the tuned configuration of the default model.
pub open spec fn is_tuned<N: Narrow>(base: TrainingConfig<N>) -> bool {
    &&& base.model.d_hidden == 64
    &&& base.model.d_head == 32
    &&& ratio_is(2, 10, base.model.dropout)
    &&& ratio_is(1, 10_000, base.learning_rate)
    &&& ratio_is(9, 100, base.take_profit)
    &&& ratio_is(9, 100, base.stop_loss)
    &&& base.label_horizon == 25
    &&& ratio_is(585, 100_000, base.fee)
    &&& base.passes == 3
    &&& base.steps == 30
    &&& base.batch_size == 64
    &&& base.epoch_size == 200
    &&& base.seed == 42
}

impl<N: Narrow> TrainArgs<N> {
    /// Fold the flags into a [`TrainingConfig`], leaving each omitted flag's default
    /// untouched.
    pub fn training_config(&self) -> (config: TrainingConfig<N>)
        ensures
            exists|base: TrainingConfig<N>| #[trigger]
                is_tuned(base) && folded(*self, base, config),
    {
        let optimizer = OptimizerConfig {
            weight_decay: self.weight_decay,
            beta_1: self.beta_1,
            beta_2: self.beta_2,
            epsilon: self.epsilon,
        };
        let base = TrainingConfig::tuned(StockModelConfig::new(), optimizer);
        assert(is_tuned(base));
        let model = StockModelConfig {
            d_hidden: or_default(self.d_hidden, base.model.d_hidden),
            d_head: or_default(self.d_head, base.model.d_head),
            dropout: or_default(self.dropout, base.model.dropout),
        };
        TrainingConfig {
            model,
            optimizer,
            learning_rate: or_default(self.learning_rate, base.learning_rate),
            take_profit: base.take_profit,
            stop_loss: base.stop_loss,
            label_horizon: or_default(self.label_horizon, base.label_horizon),
            fee: base.fee,
            passes: or_default(self.passes, base.passes),
            steps: or_default(self.window_steps, base.steps),
            batch_size: or_default(self.batch_size, base.batch_size),
            epoch_size: or_default(self.batches_per_epoch, base.epoch_size),
            seed: or_default(self.seed, base.seed),
            huber_delta: self.huber_delta,
        }
    }

    /// Gather the runtime knobs that shape one run. Zero means sweep every window, or no
    /// early stopping, and becomes `None`.
    pub fn run_options(&self) -> (options: RunOptions)
        ensures
            options.valid_batches == (if self.valid_batches == 0 {
                None
            } else {
                Some(self.valid_batches)
            }),
            options.max_tickers == self.max_tickers,
            options.valid_days == self.valid_days,
            options.patience == (if self.patience == 0 {
                None
            } else {
                Some(self.patience)
            }),
    {
        RunOptions {
            valid_batches: if self.valid_batches == 0 {
                None
            } else {
                Some(self.valid_batches)
            },
            max_tickers: self.max_tickers,
            valid_days: self.valid_days,
            patience: if self.patience == 0 {
                None
            } else {
                Some(self.patience)
            },
        }
    }
}

/// A flag that is given sets what it names, and only that.
pub proof fn given_flags_win<N: Narrow>(args: TrainArgs<N>, config: TrainingConfig<N>)
    requires
        call_ensures(TrainArgs::<N>::training_config, (&args,), config),
    ensures
        args.d_hidden matches Some(given) ==> config.model.d_hidden == given,
        args.d_head matches Some(given) ==> config.model.d_head == given,
        args.passes matches Some(given) ==> config.passes == given,
        args.batches_per_epoch matches Some(given) ==> config.epoch_size == given,
        args.batch_size matches Some(given) ==> config.batch_size == given,
        args.window_steps matches Some(given) ==> config.steps == given,
        args.seed matches Some(given) ==> config.seed == given,
        args.label_horizon matches Some(given) ==> config.label_horizon == given,
        args.dropout matches Some(given) ==> config.model.dropout == given,
        args.learning_rate matches Some(given) ==> config.learning_rate == given,
        config.optimizer.weight_decay == args.weight_decay,
        config.optimizer.beta_1 == args.beta_1,
        config.optimizer.beta_2 == args.beta_2,
        config.optimizer.epsilon == args.epsilon,
        config.huber_delta == args.huber_delta,
{
}

/// A flag that is omitted leaves the tuned setting: in exact arithmetic, a dropout of a fifth, a
/// learning rate of a ten-thousandth, barriers nine percent away, and a fee of 0.585 percent.
pub proof fn omitted_flags_keep_the_tuned_settings<N: Narrow>(
    args: TrainArgs<N>,
    config: TrainingConfig<N>,
    value: spec_fn(N) -> real,
    wide: spec_fn(N::Wide) -> real,
)
    requires
        exact(value),
        exact(wide),
        call_ensures(TrainArgs::<N>::training_config, (&args,), config),
    ensures
        args.d_hidden is None ==> config.model.d_hidden == 64,
        args.d_head is None ==> config.model.d_head == 32,
        args.passes is None ==> config.passes == 3,
        args.batches_per_epoch is None ==> config.epoch_size == 200,
        args.batch_size is None ==> config.batch_size == 64,
        args.window_steps is None ==> config.steps == 30,
        args.seed is None ==> config.seed == 42,
        args.label_horizon is None ==> config.label_horizon == 25,
        args.dropout is None ==> wide(config.model.dropout) * 10 as real == 2 as real,
        args.learning_rate is None ==> wide(config.learning_rate) * 10_000 as real == 1 as real,
        value(config.take_profit) * 100 as real == 9 as real,
        value(config.stop_loss) * 100 as real == 9 as real,
        value(config.fee) * 100_000 as real == 585 as real,
{
    let base = choose|base: TrainingConfig<N>| #[trigger]
        is_tuned(base) && folded(args, base, config);
    assert(ratio_is(2, 10, base.model.dropout) && ratio_is(1, 10_000, base.learning_rate));
    assert(ratio_is(9, 100, base.take_profit) && ratio_is(9, 100, base.stop_loss));
    assert(ratio_is(585, 100_000, base.fee));
}

/// Zero validation batches or zero patience mean no limit at all; any other number is one.
pub proof fn zero_means_no_limit<N: Narrow>(args: TrainArgs<N>, options: RunOptions)
    requires
        call_ensures(TrainArgs::<N>::run_options, (&args,), options),
    ensures
        options.valid_batches is None <==> args.valid_batches == 0,
        options.valid_batches matches Some(limit) ==> limit == args.valid_batches,
        options.patience is None <==> args.patience == 0,
        options.patience matches Some(limit) ==> limit == args.patience,
        options.max_tickers == args.max_tickers,
        options.valid_days == args.valid_days,
{
}

} // verus!
