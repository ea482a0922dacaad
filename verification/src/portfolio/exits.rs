//! Closing positions: which rules say so, at what price, and what that leaves.
use vstd::prelude::*;

use crate::number::Number;
#[allow(unused_imports)]
use crate::number::{difference_is, product_is, ratio_is, reaches_is, sum_is};
#[allow(unused_imports)]
use crate::portfolio::books::{account_sound, books_stand, lemma_sale_keeps_books, whole_lots};
use crate::portfolio::orders::book_sale;
#[allow(unused_imports)]
use crate::portfolio::orders::booked;
use crate::portfolio::pricing::{sell_price, tick_floor};
#[allow(unused_imports)]
use crate::portfolio::pricing::{sell_price_is, tick_floor_is};
use crate::portfolio::types::{
    find_bar, Action, BacktestConfig, DayBar, ExitReason, Fill, Holding, Ledger, Position,
    TradingDay,
};
#[allow(unused_imports)]
use crate::portfolio::types::{bar_of, distinct_holdings, Account};

verus! {

/// `decision` is the exit ladder's verdict on a holding that has `bar` today: take-profit
/// wins a bar that touches both barriers; next come the stop-loss, the time barrier, a
/// model Sell, and last the forced liquidation on the final day.
pub open spec fn ladder_is<N: Number>(
    holding: Holding<N>,
    bar: DayBar<N>,
    index: int,
    is_last: bool,
    config: BacktestConfig<N>,
    decision: Option<(N, ExitReason)>,
) -> bool {
    exists|one: N, gain: N, upper: N, loss: N, lower: N, over: bool|
        {
            &&& ratio_is(1, 1, one)
            &&& sum_is(one, config.take_profit, gain)
            &&& product_is(holding.entry_price, gain, upper)
            &&& difference_is(one, config.stop_loss, loss)
            &&& product_is(holding.entry_price, loss, lower)
            &&& reaches_is(bar.high, upper, over)
            &&& if over {
                decision matches Some((price, reason)) && reason == ExitReason::TakeProfit
                    && tick_floor_is(upper, price)
            } else {
                exists|under: bool|
                    {
                        &&& reaches_is(lower, bar.low, under)
                        &&& if under {
                            decision matches Some((price, reason)) && reason
                                == ExitReason::StopLoss && tick_floor_is(lower, price)
                        } else if index - holding.entry_index >= config.max_hold_days {
                            decision matches Some((price, reason)) && reason == ExitReason::Time
                                && tick_floor_is(bar.close, price)
                        } else if bar.action == Action::Sell {
                            decision matches Some((price, reason)) && reason == ExitReason::Signal
                                && sell_price_is(bar, config.fill, price)
                        } else if is_last {
                            decision matches Some((price, reason)) && reason == ExitReason::Final
                                && sell_price_is(bar, config.fill, price)
                        } else {
                            decision is None
                        }
                    }
            }
        }
}

/// `decision` is what becomes of a holding today under the barriers. Without a bar only the
/// final day liquidates, at the last mark.
pub open spec fn barrier_exit_is<N: Number>(
    holding: Holding<N>,
    bar: Option<DayBar<N>>,
    index: int,
    is_last: bool,
    config: BacktestConfig<N>,
    decision: Option<(N, ExitReason)>,
) -> bool {
    match bar {
        Some(today) => ladder_is(holding, today, index, is_last, config, decision),
        None => decision == if is_last {
            Some((holding.mark, ExitReason::Final))
        } else {
            None
        },
    }
}

/// Exit price and reason for a holding today, or `None` to keep holding. Rotation is a
/// phase of its own.
pub fn exit_decision<N: Number>(
    holding: &Holding<N>,
    bar: Option<&DayBar<N>>,
    index: usize,
    is_last: bool,
    config: &BacktestConfig<N>,
) -> (decision: Option<(N, ExitReason)>)
    requires
        holding.entry_index <= index,
    ensures
        barrier_exit_is(
            *holding,
            match bar {
                Some(today) => Some(*today),
                None => None,
            },
            index as int,
            is_last,
            *config,
            decision,
        ),
{
    match bar {
        None => {
            // No bar today: only the final day can liquidate, at the last mark.
            if is_last {
                Some((holding.mark, ExitReason::Final))
            } else {
                None
            }
        },
        Some(bar) => {
            let one = N::from_ratio(1, 1);
            let upper = holding.entry_price.times(one.plus(config.take_profit));
            let lower = holding.entry_price.times(one.minus(config.stop_loss));
            if bar.high.reaches(upper) {
                Some((tick_floor(upper), ExitReason::TakeProfit))
            } else if lower.reaches(bar.low) {
                Some((tick_floor(lower), ExitReason::StopLoss))
            } else if index - holding.entry_index >= config.max_hold_days {
                Some((tick_floor(bar.close), ExitReason::Time))
            } else if bar.action == Action::Sell {
                Some((sell_price(bar, config.fill), ExitReason::Signal))
            } else if is_last {
                Some((sell_price(bar, config.fill), ExitReason::Final))
            } else {
                None
            }
        },
    }
}

/// `decision` is what becomes of a holding today under the signals alone: it is sold when
/// the model says Sell, and on the final day; at the sell fill of its bar, or at the last
/// mark where there is none.
pub open spec fn signal_exit_is<N: Number>(
    holding: Holding<N>,
    bar: Option<DayBar<N>>,
    is_last: bool,
    fill: Fill,
    decision: Option<(N, ExitReason)>,
) -> bool {
    match bar {
        Some(today) => if today.action == Action::Sell {
            decision matches Some((price, reason)) && reason == ExitReason::Signal
                && sell_price_is(today, fill, price)
        } else if is_last {
            decision matches Some((price, reason)) && reason == ExitReason::Final && sell_price_is(
                today,
                fill,
                price,
            )
        } else {
            decision is None
        },
        None => decision == if is_last {
            Some((holding.mark, ExitReason::Final))
        } else {
            None
        },
    }
}

/// Exit price and reason under the signals alone, or `None` to keep holding.
fn signal_decision<N: Number>(
    holding: &Holding<N>,
    bar: Option<&DayBar<N>>,
    is_last: bool,
    fill: Fill,
) -> (decision: Option<(N, ExitReason)>)
    ensures
        signal_exit_is(
            *holding,
            match bar {
                Some(today) => Some(*today),
                None => None,
            },
            is_last,
            fill,
            decision,
        ),
{
    match bar {
        None => {
            if is_last {
                Some((holding.mark, ExitReason::Final))
            } else {
                None
            }
        },
        Some(bar) => {
            if bar.action == Action::Sell {
                Some((sell_price(bar, fill), ExitReason::Signal))
            } else if is_last {
                Some((sell_price(bar, fill), ExitReason::Final))
            } else {
                None
            }
        },
    }
}

/// The rules that decide when a holding is closed.
#[derive(Clone, Copy)]
pub enum ExitRules<N> {
    /// Price barriers, a time stop, the model's Sell, and the final day.
    Barriers(BacktestConfig<N>),
    /// The model's Sell and the final day.
    Signals(Fill),
}

/// `decision` is what becomes of a holding today under `rules`.
pub open spec fn exit_is<N: Number>(
    holding: Holding<N>,
    bar: Option<DayBar<N>>,
    index: int,
    is_last: bool,
    rules: ExitRules<N>,
    decision: Option<(N, ExitReason)>,
) -> bool {
    match rules {
        ExitRules::Barriers(config) => barrier_exit_is(
            holding,
            bar,
            index,
            is_last,
            config,
            decision,
        ),
        ExitRules::Signals(fill) => signal_exit_is(holding, bar, is_last, fill, decision),
    }
}

/// Exit price and reason under `rules`, or `None` to keep holding.
fn decide<N: Number>(
    holding: &Holding<N>,
    bar: Option<&DayBar<N>>,
    index: usize,
    is_last: bool,
    rules: &ExitRules<N>,
) -> (decision: Option<(N, ExitReason)>)
    requires
        holding.entry_index <= index,
    ensures
        exit_is(
            *holding,
            match bar {
                Some(today) => Some(*today),
                None => None,
            },
            index as int,
            is_last,
            *rules,
            decision,
        ),
{
    match rules {
        ExitRules::Barriers(config) => exit_decision(holding, bar, index, is_last, config),
        ExitRules::Signals(fill) => signal_decision(holding, bar, is_last, *fill),
    }
}

/// What every phase of a day relies on: no ticker is held twice, and every holding was
/// opened on a day up to `index`.
pub open spec fn holdings_ready<N>(holdings: Seq<Position<N>>, index: int) -> bool {
    &&& distinct_holdings(holdings)
    &&& forall|i: int|
        0 <= i < holdings.len() ==> (#[trigger] holdings[i]).holding.entry_index <= index
}

/// `next` is the account after the exit rules have dealt with one more position: it is
/// kept, or sold for the price and reason that they give.
pub open spec fn exit_step<N: Number>(
    account: Account<N>,
    position: Position<N>,
    day: TradingDay<N>,
    index: int,
    is_last: bool,
    rules: ExitRules<N>,
    next: Account<N>,
) -> bool {
    exists|decision: Option<(N, ExitReason)>|
        {
            &&& #[trigger] exit_is(
                position.holding,
                bar_of(day.bars@, position.ticker@),
                index,
                is_last,
                rules,
                decision,
            )
            &&& match decision {
                None => next == (Account {
                    holdings: account.holdings.push(position),
                    ..account
                }),
                Some((price, reason)) => booked(
                    account,
                    account.holdings,
                    position,
                    day.date,
                    price,
                    reason,
                    next,
                ),
            }
        }
}

/// `next` is the account after the exit rules have dealt with the first `count` of the
/// positions held in `account`, in their order.
pub open spec fn exits_upto<N: Number>(
    account: Account<N>,
    day: TradingDay<N>,
    index: int,
    is_last: bool,
    rules: ExitRules<N>,
    count: nat,
    next: Account<N>,
) -> bool
    decreases count,
{
    if count == 0 {
        next == (Account { holdings: Seq::empty(), ..account })
    } else {
        exists|earlier: Account<N>|
            {
                &&& exits_upto(
                    account,
                    day,
                    index,
                    is_last,
                    rules,
                    (count - 1) as nat,
                    earlier,
                )
                &&& #[trigger] exit_step(
                    earlier,
                    account.holdings[count - 1],
                    day,
                    index,
                    is_last,
                    rules,
                    next,
                )
            }
    }
}

/// `next` is the account after the day's sell phase: the exit rules have dealt with every
/// position.
pub open spec fn sell_phase_is<N: Number>(
    account: Account<N>,
    day: TradingDay<N>,
    index: int,
    is_last: bool,
    rules: ExitRules<N>,
    next: Account<N>,
) -> bool {
    exits_upto(account, day, index, is_last, rules, account.holdings.len(), next)
}

/// Apply the exit rules to every holding, booking each closed position.
pub fn sell_phase<N: Number>(
    day: &TradingDay<N>,
    index: usize,
    is_last: bool,
    rules: &ExitRules<N>,
    ledger: &mut Ledger<N>,
)
    requires
        day.wf(),
        holdings_ready(old(ledger)@.holdings, index as int),
    ensures
        sell_phase_is(old(ledger)@, *day, index as int, is_last, *rules, final(ledger)@),
{
    let ghost start = ledger@;
    let mut open: Vec<Position<N>> = Vec::new();
    std::mem::swap(&mut open, &mut ledger.holdings);
    let ghost mut dealt: nat = 0;
    assert(ledger@ == (Account { holdings: Seq::empty(), ..start }));
    while open.len() > 0
        invariant
            day.wf(),
            holdings_ready(start.holdings, index as int),
            dealt + open.len() == start.holdings.len(),
            open@ =~= start.holdings.skip(dealt as int),
            exits_upto(start, *day, index as int, is_last, *rules, dealt, ledger@),
        decreases open.len(),
    {
        let ghost before = ledger@;
        let position = open.remove(0);
        assert(position == start.holdings[dealt as int]);
        let slot = find_bar(&day.bars, &position.ticker);
        let bar = if slot < day.bars.len() {
            Some(&day.bars[slot].bar)
        } else {
            None
        };
        let decision = decide(&position.holding, bar, index, is_last, rules);
        assert(exit_is(
            position.holding,
            bar_of(day.bars@, position.ticker@),
            index as int,
            is_last,
            *rules,
            decision,
        ));
        match decision {
            None => {
                ledger.holdings.push(position);
            },
            Some((price, reason)) => {
                book_sale(ledger, day.date, &position, price, reason);
            },
        }
        proof {
            dealt = dealt + 1;
            assert(exits_upto(
                start,
                *day,
                index as int,
                is_last,
                *rules,
                (dealt - 1) as nat,
                before,
            ));
            assert(exit_step(
                before,
                start.holdings[dealt - 1],
                *day,
                index as int,
                is_last,
                *rules,
                ledger@,
            ));
        }
    }
}

proof fn lemma_exits_keep<N: Number>(
    account: Account<N>,
    day: TradingDay<N>,
    index: int,
    is_last: bool,
    rules: ExitRules<N>,
    count: nat,
    next: Account<N>,
    max_holdings: usize,
    starting_cash: N,
)
    requires
        account_sound(account, index, max_holdings, starting_cash),
        count <= account.holdings.len(),
        exits_upto(account, day, index, is_last, rules, count, next),
    ensures
        books_stand(next, (account.holdings.len() - count) as nat, starting_cash),
        distinct_holdings(next.holdings),
        next.holdings.len() + next.trades.len() == count + account.trades.len(),
        next.trades.len() >= account.trades.len(),
        forall|i: int|
            0 <= i < next.holdings.len() ==> account.holdings.take(count as int).contains(
                #[trigger] next.holdings[i],
            ),
        is_last ==> next.holdings.len() == 0,
    decreases count,
{
    if count > 0 {
        let position = account.holdings[count - 1];
        let earlier = choose|earlier: Account<N>|
            {
                &&& exits_upto(
                    account,
                    day,
                    index,
                    is_last,
                    rules,
                    (count - 1) as nat,
                    earlier,
                )
                &&& #[trigger] exit_step(
                    earlier,
                    account.holdings[count - 1],
                    day,
                    index,
                    is_last,
                    rules,
                    next,
                )
            };
        lemma_exits_keep(
            account,
            day,
            index,
            is_last,
            rules,
            (count - 1) as nat,
            earlier,
            max_holdings,
            starting_cash,
        );
        let pending = (account.holdings.len() - (count - 1)) as nat;
        let decision = choose|decision: Option<(N, ExitReason)>|
            {
                &&& #[trigger] exit_is(
                    position.holding,
                    bar_of(day.bars@, position.ticker@),
                    index,
                    is_last,
                    rules,
                    decision,
                )
                &&& match decision {
                    None => next == (Account {
                        holdings: earlier.holdings.push(position),
                        ..earlier
                    }),
                    Some((price, reason)) => booked(
                        earlier,
                        earlier.holdings,
                        position,
                        day.date,
                        price,
                        reason,
                        next,
                    ),
                }
            };
        let before = account.holdings.take(count - 1);
        let taken = account.holdings.take(count as int);
        assert(taken =~= before.push(position));
        match decision {
            None => {
                assert(!is_last);
                assert forall|i: int| 0 <= i < next.holdings.len() implies taken.contains(
                    #[trigger] next.holdings[i],
                ) by {
                    if i < earlier.holdings.len() {
                        assert(before.contains(earlier.holdings[i]));
                        let j = choose|j: int|
                            0 <= j < before.len() && before[j] == earlier.holdings[i];
                        assert(taken[j] == next.holdings[i]);
                    } else {
                        assert(taken[count - 1] == next.holdings[i]);
                    }
                }
                assert forall|i: int, j: int|
                    #![trigger next.holdings[i], next.holdings[j]]
                    0 <= i < j < next.holdings.len() implies next.holdings[i].ticker@
                    != next.holdings[j].ticker@ by {
                    assert(next.holdings[i] == earlier.holdings[i]);
                    if j < earlier.holdings.len() {
                        assert(next.holdings[j] == earlier.holdings[j]);
                    } else {
                        assert(before.contains(earlier.holdings[i]));
                        let k = choose|k: int|
                            0 <= k < before.len() && before[k] == earlier.holdings[i];
                        assert(account.holdings[k].ticker@ != account.holdings[count - 1].ticker@);
                    }
                }
                assert(whole_lots(position.holding.shares));
            },
            Some((price, reason)) => {
                assert(earlier =~= (Account { holdings: earlier.holdings, ..earlier }));
                lemma_sale_keeps_books(
                    earlier,
                    earlier.holdings,
                    position,
                    day.date,
                    price,
                    reason,
                    next,
                    pending,
                    starting_cash,
                );
                assert forall|i: int| 0 <= i < next.holdings.len() implies taken.contains(
                    #[trigger] next.holdings[i],
                ) by {
                    assert(before.contains(earlier.holdings[i]));
                    let j = choose|j: int| 0 <= j < before.len() && before[j] == earlier.holdings[i];
                    assert(taken[j] == next.holdings[i]);
                }
            },
        }
    }
}

/// The sell phase leaves a sound account sound and opens no position. On the last day it
/// closes every one.
pub proof fn sell_phase_keeps_sound<N: Number>(
    account: Account<N>,
    day: TradingDay<N>,
    index: int,
    is_last: bool,
    rules: ExitRules<N>,
    next: Account<N>,
    max_holdings: usize,
    starting_cash: N,
)
    requires
        account_sound(account, index, max_holdings, starting_cash),
        sell_phase_is(account, day, index, is_last, rules, next),
    ensures
        account_sound(next, index, max_holdings, starting_cash),
        forall|i: int|
            0 <= i < next.holdings.len() ==> account.holdings.contains(#[trigger] next.holdings[i]),
        next.holdings.len() + next.trades.len() == account.holdings.len() + account.trades.len(),
        is_last ==> next.holdings.len() == 0,
{
    lemma_exits_keep(
        account,
        day,
        index,
        is_last,
        rules,
        account.holdings.len(),
        next,
        max_holdings,
        starting_cash,
    );
    assert(account.holdings.take(account.holdings.len() as int) =~= account.holdings);
    assert forall|i: int| 0 <= i < next.holdings.len() implies (
    #[trigger] next.holdings[i]).holding.entry_index <= index by {
        assert(account.holdings.contains(next.holdings[i]));
    }
}

} // verus!
