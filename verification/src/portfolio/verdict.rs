//! When a holding leaves, and at what price.
use vstd::prelude::*;

use crate::number::Number;
#[allow(unused_imports)]
use crate::number::{difference_is, exact, product_is, ratio_is, reaches_is, sum_is};
#[allow(unused_imports)]
use crate::portfolio::eviction::lemma_bar_of;
#[allow(unused_imports)]
use crate::portfolio::exits::{
    barrier_exit_is, exit_is, exit_step, exits_upto, ladder_is, sell_phase_is, signal_exit_is,
    ExitRules,
};
#[allow(unused_imports)]
use crate::portfolio::orders::booked;
#[allow(unused_imports)]
use crate::portfolio::fills::{fills_below, floored_price_fills_below};
#[allow(unused_imports)]
use crate::portfolio::pricing::{sell_price_is, tick_floor_is};
#[allow(unused_imports)]
use crate::portfolio::types::{
    bar_of, bar_stands, Account, Action, BacktestConfig, DayBar, ExitReason, Fill, Holding,
    Position, TickerBar, TradingDay,
};
#[allow(unused_imports)]
use crate::reals::lemma_whole;

verus! {

/// The price at which a holding has gained its take-profit fraction.
pub open spec fn profit_barrier<N>(
    value: spec_fn(N) -> real,
    holding: Holding<N>,
    config: BacktestConfig<N>,
) -> real {
    value(holding.entry_price) * (1 as real + value(config.take_profit))
}

/// The price at which a holding has lost its stop-loss fraction.
pub open spec fn loss_barrier<N>(
    value: spec_fn(N) -> real,
    holding: Holding<N>,
    config: BacktestConfig<N>,
) -> real {
    value(holding.entry_price) * (1 as real - value(config.stop_loss))
}

/// The barriers of a holding as numbers, and what today's bar says of them.
proof fn lemma_ladder<N: Number>(
    value: spec_fn(N) -> real,
    holding: Holding<N>,
    bar: DayBar<N>,
    index: int,
    is_last: bool,
    config: BacktestConfig<N>,
    decision: Option<(N, ExitReason)>,
) -> (barriers: (N, N))
    requires
        exact(value),
        ladder_is(holding, bar, index, is_last, config, decision),
    ensures
        value(barriers.0) == profit_barrier(value, holding, config),
        value(barriers.1) == loss_barrier(value, holding, config),
        ({
            let over = value(bar.high) >= profit_barrier(value, holding, config);
            let under = value(bar.low) <= loss_barrier(value, holding, config);
            if over {
                decision matches Some((price, reason)) && reason == ExitReason::TakeProfit
                    && tick_floor_is(barriers.0, price)
            } else if under {
                decision matches Some((price, reason)) && reason == ExitReason::StopLoss
                    && tick_floor_is(barriers.1, price)
            } else if index - holding.entry_index >= config.max_hold_days {
                decision matches Some((price, reason)) && reason == ExitReason::Time
                    && tick_floor_is(bar.close, price)
            } else if bar.action == Action::Sell {
                decision matches Some((price, reason)) && reason == ExitReason::Signal
                    && sell_price_is(bar, config.fill, price)
            } else if is_last {
                decision matches Some((price, reason)) && reason == ExitReason::Final
                    && sell_price_is(bar, config.fill, price)
            } else {
                decision is None
            }
        }),
{
    let (one, gain, upper, loss, lower, over) = choose|
        one: N,
        gain: N,
        upper: N,
        loss: N,
        lower: N,
        over: bool,
    |
        {
            &&& ratio_is(1, 1, one)
            &&& sum_is(one, config.take_profit, gain)
            &&& product_is(holding.entry_price, gain, upper)
            &&& difference_is(one, config.stop_loss, loss)
            &&& product_is(holding.entry_price, loss, lower)
            &&& reaches_is(bar.high, upper, over)
            &&& if over {
                decision matches Some((price, reason)) && reason == ExitReason::TakeProfit
                    && tick_floor_is(upper, price)
            } else {
                exists|under: bool|
                    {
                        &&& reaches_is(lower, bar.low, under)
                        &&& if under {
                            decision matches Some((price, reason)) && reason
                                == ExitReason::StopLoss && tick_floor_is(lower, price)
                        } else if index - holding.entry_index >= config.max_hold_days {
                            decision matches Some((price, reason)) && reason == ExitReason::Time
                                && tick_floor_is(bar.close, price)
                        } else if bar.action == Action::Sell {
                            decision matches Some((price, reason)) && reason == ExitReason::Signal
                                && sell_price_is(bar, config.fill, price)
                        } else if is_last {
                            decision matches Some((price, reason)) && reason == ExitReason::Final
                                && sell_price_is(bar, config.fill, price)
                        } else {
                            decision is None
                        }
                    }
            }
        };
    lemma_whole(value, 1, one);
    (upper, lower)
}

/// A holding that leaves by the time barrier has been held for at least as many days as the
/// configuration asks.
pub proof fn time_exit_waits_out_the_hold<N: Number>(
    holding: Holding<N>,
    bar: Option<DayBar<N>>,
    index: int,
    is_last: bool,
    config: BacktestConfig<N>,
    price: N,
)
    requires
        barrier_exit_is(holding, bar, index, is_last, config, Some((price, ExitReason::Time))),
    ensures
        index >= holding.entry_index + config.max_hold_days,
        bar matches Some(today) && tick_floor_is(today.close, price),
{
}

/// In an exact format a holding stays if it is younger than the time barrier, its bar touches
/// neither barrier, the model does not say Sell, and the run goes on.
pub proof fn young_quiet_holding_stays<N: Number>(
    value: spec_fn(N) -> real,
    holding: Holding<N>,
    bar: DayBar<N>,
    index: int,
    config: BacktestConfig<N>,
    decision: Option<(N, ExitReason)>,
)
    requires
        exact(value),
        barrier_exit_is(holding, Some(bar), index, false, config, decision),
        index < holding.entry_index + config.max_hold_days,
        value(bar.high) < profit_barrier(value, holding, config),
        value(bar.low) > loss_barrier(value, holding, config),
        bar.action != Action::Sell,
    ensures
        decision is None,
{
    lemma_ladder(value, holding, bar, index, false, config, decision);
}

/// Only the days held count: the verdict is the same on a run that began `shift` days earlier.
pub proof fn verdict_does_not_know_the_first_day<N: Number>(
    early: Holding<N>,
    late: Holding<N>,
    shift: int,
    bar: Option<DayBar<N>>,
    index: int,
    is_last: bool,
    config: BacktestConfig<N>,
    decision: Option<(N, ExitReason)>,
)
    requires
        barrier_exit_is(early, bar, index, is_last, config, decision),
        late.entry_index == early.entry_index + shift,
        late.entry_price == early.entry_price,
        late.mark == early.mark,
    ensures
        barrier_exit_is(late, bar, index + shift, is_last, config, decision),
{
}

/// In an exact format a holding leaves with its profit if and only if today's high reaches
/// the take-profit price, whatever else the bar does, and fills at the tick below that price.
pub proof fn profit_is_taken_at_a_touch<N: Number>(
    value: spec_fn(N) -> real,
    holding: Holding<N>,
    bar: DayBar<N>,
    index: int,
    is_last: bool,
    config: BacktestConfig<N>,
    decision: Option<(N, ExitReason)>,
)
    requires
        exact(value),
        barrier_exit_is(holding, Some(bar), index, is_last, config, decision),
    ensures
        value(bar.high) >= profit_barrier(value, holding, config) <==> (decision matches Some(
            (price, reason),
        ) && reason == ExitReason::TakeProfit),
        decision matches Some((price, reason)) ==> (reason == ExitReason::TakeProfit ==> fills_below(
            value(price),
            profit_barrier(value, holding, config),
        )),
{
    let (upper, lower) = lemma_ladder(value, holding, bar, index, is_last, config, decision);
    if let Some((price, reason)) = decision {
        if reason == ExitReason::TakeProfit {
            floored_price_fills_below(value, upper, price);
        }
    }
}

/// In an exact format a holding is stopped out if and only if today's low reaches the
/// stop-loss price and its high does not reach the take-profit price, and fills at the tick
/// below the stop-loss price.
pub proof fn loss_is_stopped_at_a_touch<N: Number>(
    value: spec_fn(N) -> real,
    holding: Holding<N>,
    bar: DayBar<N>,
    index: int,
    is_last: bool,
    config: BacktestConfig<N>,
    decision: Option<(N, ExitReason)>,
)
    requires
        exact(value),
        barrier_exit_is(holding, Some(bar), index, is_last, config, decision),
    ensures
        value(bar.low) <= loss_barrier(value, holding, config) && value(bar.high) < profit_barrier(
            value,
            holding,
            config,
        ) <==> (decision matches Some((price, reason)) && reason == ExitReason::StopLoss),
        decision matches Some((price, reason)) ==> (reason == ExitReason::StopLoss ==> fills_below(
            value(price),
            loss_barrier(value, holding, config),
        )),
{
    let (upper, lower) = lemma_ladder(value, holding, bar, index, is_last, config, decision);
    if let Some((price, reason)) = decision {
        if reason == ExitReason::StopLoss {
            floored_price_fills_below(value, lower, price);
        }
    }
}

/// In an exact format a holding between its barriers leaves for time once it is old enough,
/// else for the model's Sell, else because the run ends; and each at its own price.
pub proof fn holding_between_the_barriers_leaves_in_order<N: Number>(
    value: spec_fn(N) -> real,
    holding: Holding<N>,
    bar: DayBar<N>,
    index: int,
    is_last: bool,
    config: BacktestConfig<N>,
    decision: Option<(N, ExitReason)>,
)
    requires
        exact(value),
        barrier_exit_is(holding, Some(bar), index, is_last, config, decision),
        value(bar.high) < profit_barrier(value, holding, config),
        value(bar.low) > loss_barrier(value, holding, config),
    ensures
        ({
            let old = index >= holding.entry_index + config.max_hold_days;
            let sell = bar.action == Action::Sell;
            let asked = match config.fill {
                Fill::LowHigh => value(bar.high),
                Fill::Open => value(bar.open),
            };
            &&& decision is None <==> !old && !sell && !is_last
            &&& old ==> (decision matches Some((price, reason)) && reason == ExitReason::Time
                && fills_below(value(price), value(bar.close)))
            &&& !old && sell ==> (decision matches Some((price, reason)) && reason
                == ExitReason::Signal && fills_below(value(price), asked))
            &&& !old && !sell && is_last ==> (decision matches Some((price, reason)) && reason
                == ExitReason::Final && fills_below(value(price), asked))
        }),
{
    lemma_ladder(value, holding, bar, index, is_last, config, decision);
    if let Some((price, reason)) = decision {
        if reason == ExitReason::Time {
            floored_price_fills_below(value, bar.close, price);
        } else {
            match config.fill {
                Fill::LowHigh => floored_price_fills_below(value, bar.high, price),
                Fill::Open => floored_price_fills_below(value, bar.open, price),
            }
        }
    }
}

/// A ticker without a bar today is not sold before the last day, and on the last day goes at
/// its last mark.
pub proof fn holding_without_a_bar_waits_for_the_end<N: Number>(
    holding: Holding<N>,
    index: int,
    is_last: bool,
    config: BacktestConfig<N>,
    fill: Fill,
    decision: Option<(N, ExitReason)>,
)
    requires
        barrier_exit_is(holding, None, index, is_last, config, decision) || signal_exit_is(
            holding,
            None,
            is_last,
            fill,
            decision,
        ),
    ensures
        !is_last ==> decision is None,
        is_last ==> decision == Some((holding.mark, ExitReason::Final)),
{
}

/// In an exact format the signals alone close a holding at its sell fill: for the model's
/// Sell, and at the end of the run.
pub proof fn signals_close_on_sell_and_at_the_end<N: Number>(
    value: spec_fn(N) -> real,
    holding: Holding<N>,
    bar: DayBar<N>,
    is_last: bool,
    fill: Fill,
    decision: Option<(N, ExitReason)>,
)
    requires
        exact(value),
        signal_exit_is(holding, Some(bar), is_last, fill, decision),
    ensures
        decision is None <==> bar.action != Action::Sell && !is_last,
        decision matches Some((price, reason)) ==> (reason == ExitReason::Signal <==> bar.action
            == Action::Sell) && (reason == ExitReason::Signal || reason == ExitReason::Final),
        decision matches Some((price, reason)) ==> fills_below(
            value(price),
            match fill {
                Fill::LowHigh => value(bar.high),
                Fill::Open => value(bar.open),
            },
        ),
{
    if let Some((price, reason)) = decision {
        match fill {
            Fill::LowHigh => floored_price_fills_below(value, bar.high, price),
            Fill::Open => floored_price_fills_below(value, bar.open, price),
        }
    }
}

/// No rule closes the position on a day with `bars`: the run goes on; and if the ticker has a
/// bar, the position is younger than the time barrier, the bar touches neither barrier, and
/// the model does not say Sell.
pub open spec fn at_rest<N>(
    value: spec_fn(N) -> real,
    bars: Seq<TickerBar<N>>,
    index: int,
    is_last: bool,
    config: BacktestConfig<N>,
    position: Position<N>,
) -> bool {
    &&& !is_last
    &&& forall|slot: int|
        0 <= slot < bars.len() && (#[trigger] bars[slot]).ticker@ == position.ticker@ ==> {
            &&& index < position.holding.entry_index + config.max_hold_days
            &&& value(bars[slot].bar.high) < profit_barrier(value, position.holding, config)
            &&& value(bars[slot].bar.low) > loss_barrier(value, position.holding, config)
            &&& bars[slot].bar.action != Action::Sell
        }
}

proof fn lemma_at_rest<N: Number>(
    value: spec_fn(N) -> real,
    day: TradingDay<N>,
    index: int,
    is_last: bool,
    config: BacktestConfig<N>,
    position: Position<N>,
    decision: Option<(N, ExitReason)>,
)
    requires
        exact(value),
        day.wf(),
        barrier_exit_is(
            position.holding,
            bar_of(day.bars@, position.ticker@),
            index,
            is_last,
            config,
            decision,
        ),
    ensures
        decision is None <==> at_rest(value, day.bars@, index, is_last, config, position),
{
    let bars = day.bars@;
    let holding = position.holding;
    if exists|slot: int| bar_stands(bars, position.ticker@, slot) {
        let found = choose|slot: int| bar_stands(bars, position.ticker@, slot);
        lemma_bar_of(bars, found);
        let bar = bars[found].bar;
        lemma_ladder(value, holding, bar, index, is_last, config, decision);
        assert(bars[found].ticker@ == position.ticker@);
        assert forall|slot: int|
            0 <= slot < bars.len() && (#[trigger] bars[slot]).ticker@
                == position.ticker@ implies slot == found by {
            if slot < found {
                assert(bars[slot].ticker@ != bars[found].ticker@);
            } else if found < slot {
                assert(bars[found].ticker@ != bars[slot].ticker@);
            }
        }
    } else {
        assert forall|slot: int| 0 <= slot < bars.len() implies (#[trigger] bars[slot]).ticker@
            != position.ticker@ by {
            assert(!bar_stands(bars, position.ticker@, slot));
        }
    }
}

proof fn lemma_remaining<N: Number>(
    value: spec_fn(N) -> real,
    account: Account<N>,
    day: TradingDay<N>,
    index: int,
    is_last: bool,
    config: BacktestConfig<N>,
    count: nat,
    next: Account<N>,
)
    requires
        exact(value),
        day.wf(),
        count <= account.holdings.len(),
        exits_upto(account, day, index, is_last, ExitRules::Barriers(config), count, next),
    ensures
        forall|p: int|
            0 <= p < next.holdings.len() ==> at_rest(
                value,
                day.bars@,
                index,
                is_last,
                config,
                #[trigger] next.holdings[p],
            ),
        forall|p: int|
            0 <= p < count && at_rest(
                value,
                day.bars@,
                index,
                is_last,
                config,
                #[trigger] account.holdings[p],
            ) ==> next.holdings.contains(account.holdings[p]),
    decreases count,
{
    if count > 0 {
        let before = (count - 1) as nat;
        let rules = ExitRules::Barriers(config);
        let position = account.holdings[count - 1];
        let earlier = choose|earlier: Account<N>|
            {
                &&& exits_upto(account, day, index, is_last, rules, before, earlier)
                &&& #[trigger] exit_step(earlier, position, day, index, is_last, rules, next)
            };
        lemma_remaining(value, account, day, index, is_last, config, before, earlier);
        let decision = choose|decision: Option<(N, ExitReason)>|
            {
                &&& #[trigger] exit_is(
                    position.holding,
                    bar_of(day.bars@, position.ticker@),
                    index,
                    is_last,
                    rules,
                    decision,
                )
                &&& match decision {
                    None => next == (Account {
                        holdings: earlier.holdings.push(position),
                        ..earlier
                    }),
                    Some((price, reason)) => booked(
                        earlier,
                        earlier.holdings,
                        position,
                        day.date,
                        price,
                        reason,
                        next,
                    ),
                }
            };
        lemma_at_rest(value, day, index, is_last, config, position, decision);
        assert forall|p: int| 0 <= p < next.holdings.len() implies at_rest(
            value,
            day.bars@,
            index,
            is_last,
            config,
            #[trigger] next.holdings[p],
        ) by {
            if p < earlier.holdings.len() {
                assert(next.holdings[p] == earlier.holdings[p]);
            }
        }
        assert forall|p: int|
            0 <= p < count && at_rest(
                value,
                day.bars@,
                index,
                is_last,
                config,
                #[trigger] account.holdings[p],
            ) implies next.holdings.contains(account.holdings[p]) by {
            if p < before {
                let q = choose|q: int|
                    0 <= q < earlier.holdings.len() && earlier.holdings[q] == account.holdings[p];
                assert(next.holdings[q] == account.holdings[p]);
            } else {
                assert(next.holdings[next.holdings.len() - 1] == position);
            }
        }
    }
}

/// In an exact format the sell phase keeps exactly the positions that no rule closes: every
/// one that remains is at rest, and every one at rest remains.
pub proof fn exactly_the_positions_at_rest_remain<N: Number>(
    value: spec_fn(N) -> real,
    account: Account<N>,
    day: TradingDay<N>,
    index: int,
    is_last: bool,
    config: BacktestConfig<N>,
    next: Account<N>,
    p: int,
)
    requires
        exact(value),
        day.wf(),
        sell_phase_is(account, day, index, is_last, ExitRules::Barriers(config), next),
    ensures
        0 <= p < next.holdings.len() ==> at_rest(
            value,
            day.bars@,
            index,
            is_last,
            config,
            next.holdings[p],
        ),
        0 <= p < account.holdings.len() && at_rest(
            value,
            day.bars@,
            index,
            is_last,
            config,
            account.holdings[p],
        ) ==> next.holdings.contains(account.holdings[p]),
{
    lemma_remaining(
        value,
        account,
        day,
        index,
        is_last,
        config,
        account.holdings.len(),
        next,
    );
}

} // verus!
