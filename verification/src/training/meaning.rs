//! What a training run promises: which days train, how often, and which epoch is kept.
use vstd::prelude::*;

use crate::number::{Narrow, Number};
#[allow(unused_imports)]
use crate::number::{exact, exceeds_is};
#[allow(unused_imports)]
use crate::history::{ascending, latest, latest_is_the_maximum, rows_before, rows_before_is_the_cut};
#[allow(unused_imports)]
use crate::store::{
    all_wf, date_columns, split_sides_are_apart, train_side, valid_side, TickerStore, TickerView,
};
#[allow(unused_imports)]
use crate::training::{
    best_is, better_of, ceiling, cutoff_of, epochs_cover_the_passes, has_cutoff, least, schedule,
    split_is, valid_cap, LossEntry, Prepared, Schedule, TrainError, TrainingConfig,
};

verus! {

/// In an exact format the epoch that is kept has the lowest loss of all whose checkpoint is on
/// disk, the first of several; there is one whenever any checkpoint is on disk.
pub proof fn kept_epoch_has_the_lowest_loss<N: Number>(
    value: spec_fn(N) -> real,
    entries: Seq<LossEntry<N>>,
    count: nat,
    best: Option<int>,
)
    requires
        exact(value),
        count <= entries.len(),
        best_is(entries, count, best),
    ensures
        best is None <==> forall|i: int| 0 <= i < count ==> !(#[trigger] entries[i]).on_disk,
        best matches Some(at) ==> {
            &&& 0 <= at < count
            &&& entries[at].on_disk
            &&& forall|i: int|
                0 <= i < count && (#[trigger] entries[i]).on_disk ==> value(entries[at].value)
                    <= value(entries[i].value)
            &&& forall|i: int|
                0 <= i < at && (#[trigger] entries[i]).on_disk ==> value(entries[at].value)
                    < value(entries[i].value)
        },
    decreases count,
{
    if count > 0 {
        let before = (count - 1) as nat;
        let earlier = choose|earlier: Option<int>| #[trigger]
            better_of(entries, count - 1, earlier, best) && best_is(entries, before, earlier);
        kept_epoch_has_the_lowest_loss(value, entries, before, earlier);
        assert(entries[count - 1].on_disk == entries[count - 1].on_disk);
    }
}

proof fn lemma_sides<T>(tickers: Seq<TickerView<T>>, cutoff: i32, steps: nat, t: int)
    requires
        0 <= t < tickers.len(),
    ensures
        rows_before(tickers[t].history.dates, cutoff) >= steps ==> train_side(
            tickers,
            cutoff,
            steps,
        ).contains(tickers[t].head(rows_before(tickers[t].history.dates, cutoff) as int)),
        tickers[t].history.rows() - rows_before(tickers[t].history.dates, cutoff) >= steps
            ==> valid_side(tickers, cutoff, steps).contains(
            tickers[t].tail(rows_before(tickers[t].history.dates, cutoff) as int),
        ),
    decreases tickers.len(),
{
    let shorter = tickers.drop_last();
    let (train, valid) = (train_side(tickers, cutoff, steps), valid_side(tickers, cutoff, steps));
    let cut = rows_before(tickers[t].history.dates, cutoff);
    if t < shorter.len() {
        lemma_sides(shorter, cutoff, steps, t);
        let (a, b) = (train_side(shorter, cutoff, steps), valid_side(shorter, cutoff, steps));
        if cut >= steps {
            let i = choose|i: int| 0 <= i < a.len() && a[i] == tickers[t].head(cut as int);
            assert(train[i] == a[i]);
        }
        if tickers[t].history.rows() - cut >= steps {
            let i = choose|i: int| 0 <= i < b.len() && b[i] == tickers[t].tail(cut as int);
            assert(valid[i] == b[i]);
        }
    } else {
        if cut >= steps {
            assert(train[train.len() - 1] == tickers[t].head(cut as int));
        }
        if tickers[t].history.rows() - cut >= steps {
            assert(valid[valid.len() - 1] == tickers[t].tail(cut as int));
        }
    }
}

/// The cutoff of a split lies so many days before the latest date of all tickers. Every row
/// that trains is dated before it, every row that validates is not.
pub proof fn recent_days_validate<T>(
    tickers: Seq<TickerView<T>>,
    n_industries: usize,
    valid_days: i64,
    steps: nat,
    sides: Prepared<T>,
    t: int,
    r: int,
)
    requires
        all_wf(tickers),
        has_cutoff(tickers, valid_days),
        split_is(tickers, n_industries, valid_days, steps, Ok(sides)),
    ensures
        exists|t: int, r: int|
            0 <= t < tickers.len() && 0 <= r < tickers[t].history.dates.len()
                && #[trigger] tickers[t].history.dates[r] == sides.cutoff + valid_days,
        0 <= t < tickers.len() && 0 <= r < tickers[t].history.dates.len()
            ==> tickers[t].history.dates[r] <= sides.cutoff + valid_days,
        0 <= t < sides.train@.len() && 0 <= r < sides.train@[t].history.rows()
            ==> sides.train@[t].history.dates[r] < sides.cutoff,
        0 <= t < sides.valid@.len() && 0 <= r < sides.valid@[t].history.rows()
            ==> sides.valid@[t].history.dates[r] >= sides.cutoff,
{
    let columns = date_columns(tickers);
    assert forall|c: int| 0 <= c < columns.len() implies ascending(#[trigger] columns[c]) by {
        assert(tickers[c].wf());
    }
    latest_is_the_maximum(columns);
    let day = latest(columns)->0;
    let (c, row) = choose|c: int, row: int|
        0 <= c < columns.len() && 0 <= row < columns[c].len() && #[trigger] columns[c][row] == day;
    assert(tickers[c].history.dates[row] == day);
    if 0 <= t < tickers.len() && 0 <= r < tickers[t].history.dates.len() {
        assert(columns[t][r] <= day);
    }
    split_sides_are_apart(tickers, sides.cutoff, steps);
}

/// A ticker trains with all its rows before the cutoff if there are enough for a window, and
/// validates with all the others if there are enough of those.
pub proof fn long_enough_sides_are_kept_whole<T>(
    tickers: Seq<TickerView<T>>,
    n_industries: usize,
    valid_days: i64,
    steps: nat,
    sides: Prepared<T>,
    t: int,
    cut: int,
)
    requires
        all_wf(tickers),
        split_is(tickers, n_industries, valid_days, steps, Ok(sides)),
        0 <= t < tickers.len(),
        0 <= cut <= tickers[t].history.rows(),
        forall|r: int|
            0 <= r < cut ==> (#[trigger] tickers[t].history.dates[r]) < sides.cutoff,
        forall|r: int|
            cut <= r < tickers[t].history.rows() ==> (#[trigger] tickers[t].history.dates[r])
                >= sides.cutoff,
    ensures
        cut >= steps ==> sides.train@.contains(tickers[t].head(cut)),
        tickers[t].history.rows() - cut >= steps ==> sides.valid@.contains(tickers[t].tail(cut)),
{
    assert(tickers[t].wf());
    let dates = tickers[t].history.dates;
    rows_before_is_the_cut(dates, sides.cutoff);
    let found = rows_before(dates, sides.cutoff) as int;
    if found < cut {
        assert(dates[found] >= sides.cutoff);
    } else if cut < found {
        assert(dates[cut] < sides.cutoff);
    }
    lemma_sides(tickers, sides.cutoff, steps, t);
}

/// The epochs of a schedule cover the passes over the data, and one epoch fewer would not;
/// an epoch takes so many batches, or every window where there are fewer.
pub proof fn schedule_covers_the_passes<N: Narrow>(
    config: TrainingConfig<N>,
    windows: usize,
    plan: Schedule,
)
    requires
        windows > 0,
        config.passes > 0,
        config.epoch_size > 0,
        config.batch_size > 0,
        config.epoch_size * config.batch_size <= usize::MAX,
        config.passes * windows <= usize::MAX,
        call_ensures(schedule::<N>, (&config, windows), Ok(plan)),
    ensures
        plan.num_epochs * plan.epoch_items >= config.passes * windows,
        (plan.num_epochs - 1) * plan.epoch_items < config.passes * windows,
        plan.epoch_items <= windows,
        plan.epoch_items <= config.epoch_size * config.batch_size,
        plan.epoch_items == windows || plan.epoch_items == config.epoch_size * config.batch_size,
{
    let budget = config.epoch_size * config.batch_size;
    assert(budget > 0) by (nonlinear_arith)
        requires
            budget == config.epoch_size * config.batch_size,
            config.epoch_size > 0,
            config.batch_size > 0,
    ;
    epochs_cover_the_passes(
        config.passes as int,
        windows as int,
        plan.epoch_items as int,
    );
}

/// A cap keeps no more windows than there are, nor than its batches hold, and as many as that.
pub proof fn cap_is_the_smaller_of_both(
    batches: usize,
    batch_size: usize,
    available: usize,
    cap: usize,
)
    requires
        batches * batch_size <= usize::MAX,
        call_ensures(valid_cap, (batches, batch_size, available), cap),
    ensures
        cap <= available && cap <= batches * batch_size,
        cap == available || cap == batches * batch_size,
{
}

} // verus!
