//! The story behind every trade of a run: when and why it was opened and closed.
use vstd::prelude::*;

use crate::number::Number;
#[allow(unused_imports)]
use crate::number::{exact, exceeds_is, product_is, ratio_is, reaches_is};
#[allow(unused_imports)]
use crate::portfolio::eviction::lemma_bar_of;
#[allow(unused_imports)]
use crate::portfolio::exits::{
    barrier_exit_is, exit_is, exit_step, exits_upto, sell_phase_is, signal_exit_is, ExitRules,
};
#[allow(unused_imports)]
use crate::portfolio::fills::{
    buys_cost_their_outlay, buys_fill_above_the_bar, fills_above, fills_below, outlay,
    sales_bring_their_takings, sales_fill_below_the_bar, takings,
};
#[allow(unused_imports)]
use crate::portfolio::orders::{
    affordable_is, booked, bought, buy_phase_is, buy_step, buys_upto, candidates_are, closed_trade,
    cost_is, equity_is, mark_on, marked, pick_is, picks_are, sale_is, stands_for, strongest_first,
    BuyRules, SaleFigures,
};
#[allow(unused_imports)]
use crate::portfolio::pricing::{buy_price_is, sell_price_is};
#[allow(unused_imports)]
use crate::portfolio::ranking::Ranked;
#[allow(unused_imports)]
use crate::portfolio::rotation::{rotate_phase_is, rotate_step, rotated_upto};
#[allow(unused_imports)]
use crate::portfolio::simulation::{
    day_at, day_is, opened_is, run_keeps_sound, runs_upto, Strategy,
};
#[allow(unused_imports)]
use crate::portfolio::sizing::{bid, equity_counts_every_position_at_its_mark, worth_at};
#[allow(unused_imports)]
use crate::portfolio::types::{
    bar_of, bar_stands, holds, Account, Action, BacktestConfig, DayBar, EquityPoint, ExitReason,
    Fill, Holding, Position, TickerBar, Trade, TradingDay,
};
#[allow(unused_imports)]
use crate::portfolio::verdict::{
    holding_between_the_barriers_leaves_in_order, loss_barrier, loss_is_stopped_at_a_touch,
    profit_barrier, profit_is_taken_at_a_touch, signals_close_on_sell_and_at_the_end,
};

verus! {

/// The bar at `slot` of day `i` is that of `ticker`.
pub open spec fn trades_in<N>(
    days: Seq<TradingDay<N>>,
    i: int,
    slot: int,
    ticker: Seq<char>,
) -> bool {
    0 <= i < days.len() && 0 <= slot < days[i].bars@.len() && days[i].bars@[slot].ticker@ == ticker
}

/// The position was opened on day `i`, at the buy fill of its bar at `slot` there, whose score
/// exceeds the threshold.
spec fn entered<N: Number>(
    days: Seq<TradingDay<N>>,
    buys: BuyRules<N>,
    position: Position<N>,
    i: int,
    slot: int,
    amount: N,
) -> bool {
    &&& trades_in(days, i, slot, position.ticker@)
    &&& position.holding.entry_index == i
    &&& position.holding.entry_date == days[i].date
    &&& buy_price_is(days[i].bars@[slot].bar, buys.fill, position.holding.entry_price)
    &&& exceeds_is(days[i].bars@[slot].bar.score, buys.threshold, true)
    &&& cost_is(
        position.holding.entry_price,
        position.holding.shares,
        amount,
        position.holding.cost,
    )
}

/// `mark` is the close of `ticker` on day `k`, from `i` on the last one before day `count` that
/// has a bar of it.
pub open spec fn last_close<N>(
    days: Seq<TradingDay<N>>,
    ticker: Seq<char>,
    mark: N,
    i: int,
    k: int,
    slot: int,
    count: int,
) -> bool {
    &&& i <= k < count
    &&& trades_in(days, k, slot, ticker)
    &&& days[k].bars@[slot].bar.close == mark
    &&& forall|later: int, other: int|
        k < later < count ==> !(#[trigger] trades_in(days, later, other, ticker))
}

/// The position was opened before day `count` and is marked at the last close before it.
spec fn position_stands<N: Number>(
    days: Seq<TradingDay<N>>,
    buys: BuyRules<N>,
    position: Position<N>,
    count: int,
) -> bool {
    exists|i: int, slot: int, amount: N, k: int, at: int|
        {
            &&& i < count
            &&& #[trigger] entered(days, buys, position, i, slot, amount)
            &&& #[trigger] last_close(
                days,
                position.ticker@,
                position.holding.mark,
                i,
                k,
                at,
                count,
            )
        }
}

/// The position was opened on day `i` and is marked at its close.
spec fn fresh<N: Number>(
    days: Seq<TradingDay<N>>,
    buys: BuyRules<N>,
    position: Position<N>,
    i: int,
) -> bool {
    exists|slot: int, amount: N| #[trigger]
        entered(days, buys, position, i, slot, amount) && days[i].bars@[slot].bar.close
            == position.holding.mark
}

/// The position left on day `j` for `reason`, at `price`.
spec fn left<N: Number>(
    days: Seq<TradingDay<N>>,
    strategy: Strategy<N>,
    position: Position<N>,
    j: int,
    price: N,
    reason: ExitReason,
) -> bool {
    let bar = bar_of(days[j].bars@, position.ticker@);
    ||| exit_is(
        position.holding,
        bar,
        j,
        j == days.len() - 1,
        strategy.exits,
        Some((price, reason)),
    )
    ||| {
        &&& strategy.rotates
        &&& reason == ExitReason::Rotate
        &&& j < days.len() - 1
        &&& bar matches Some(today) && sell_price_is(today, strategy.buys.fill, price)
    }
}

/// `trade` closed `position` on day `j`.
spec fn closed<N: Number>(
    days: Seq<TradingDay<N>>,
    strategy: Strategy<N>,
    position: Position<N>,
    j: int,
    cash: N,
    sale: SaleFigures<N>,
    trade: Trade<N>,
) -> bool {
    &&& 0 <= j < days.len()
    &&& position_stands(days, strategy.buys, position, j)
    &&& sale_is(cash, position.holding, trade.exit_price, sale)
    &&& trade == closed_trade(position, days[j].date, trade.exit_price, trade.exit_reason, sale)
    &&& left(days, strategy, position, j, trade.exit_price, trade.exit_reason)
}

/// The trade was closed before day `count`.
spec fn trade_stands<N: Number>(
    days: Seq<TradingDay<N>>,
    strategy: Strategy<N>,
    trade: Trade<N>,
    count: int,
) -> bool {
    exists|position: Position<N>, j: int, cash: N, sale: SaleFigures<N>|
        j < count && #[trigger] closed(days, strategy, position, j, cash, sale, trade)
}

spec fn trades_stand<N: Number>(
    days: Seq<TradingDay<N>>,
    strategy: Strategy<N>,
    trades: Seq<Trade<N>>,
    count: int,
) -> bool {
    forall|t: int|
        0 <= t < trades.len() ==> trade_stands(days, strategy, #[trigger] trades[t], count)
}

spec fn positions_stand<N: Number>(
    days: Seq<TradingDay<N>>,
    strategy: Strategy<N>,
    positions: Seq<Position<N>>,
    count: int,
) -> bool {
    forall|p: int|
        0 <= p < positions.len() ==> position_stands(
            days,
            strategy.buys,
            #[trigger] positions[p],
            count,
        )
}

proof fn lemma_sold<N: Number>(
    days: Seq<TradingDay<N>>,
    strategy: Strategy<N>,
    account: Account<N>,
    remaining: Seq<Position<N>>,
    position: Position<N>,
    j: int,
    price: N,
    reason: ExitReason,
    next: Account<N>,
)
    requires
        0 <= j < days.len(),
        trades_stand(days, strategy, account.trades, j + 1),
        position_stands(days, strategy.buys, position, j),
        left(days, strategy, position, j, price, reason),
        booked(account, remaining, position, days[j].date, price, reason, next),
    ensures
        trades_stand(days, strategy, next.trades, j + 1),
{
    let sale = choose|sale: SaleFigures<N>|
        {
            &&& #[trigger] sale_is(account.cash, position.holding, price, sale)
            &&& next.trades == account.trades.push(
                closed_trade(position, days[j].date, price, reason, sale),
            )
        };
    assert forall|t: int| 0 <= t < next.trades.len() implies trade_stands(
        days,
        strategy,
        #[trigger] next.trades[t],
        j + 1,
    ) by {
        if t < account.trades.len() {
            assert(next.trades[t] == account.trades[t]);
        } else {
            assert(closed(days, strategy, position, j, account.cash, sale, next.trades[t]));
        }
    }
}

proof fn lemma_exits_story<N: Number>(
    days: Seq<TradingDay<N>>,
    strategy: Strategy<N>,
    account: Account<N>,
    j: int,
    count: nat,
    next: Account<N>,
)
    requires
        0 <= j < days.len(),
        trades_stand(days, strategy, account.trades, j + 1),
        positions_stand(days, strategy, account.holdings, j),
        count <= account.holdings.len(),
        exits_upto(account, days[j], j, j == days.len() - 1, strategy.exits, count, next),
    ensures
        trades_stand(days, strategy, next.trades, j + 1),
        positions_stand(days, strategy, next.holdings, j),
    decreases count,
{
    if count > 0 {
        let before = (count - 1) as nat;
        let is_last = j == days.len() - 1;
        let position = account.holdings[count - 1];
        let earlier = choose|earlier: Account<N>|
            {
                &&& exits_upto(account, days[j], j, is_last, strategy.exits, before, earlier)
                &&& #[trigger] exit_step(
                    earlier,
                    position,
                    days[j],
                    j,
                    is_last,
                    strategy.exits,
                    next,
                )
            };
        lemma_exits_story(days, strategy, account, j, before, earlier);
        let decision = choose|decision: Option<(N, ExitReason)>|
            {
                &&& #[trigger] exit_is(
                    position.holding,
                    bar_of(days[j].bars@, position.ticker@),
                    j,
                    is_last,
                    strategy.exits,
                    decision,
                )
                &&& match decision {
                    None => next == (Account {
                        holdings: earlier.holdings.push(position),
                        ..earlier
                    }),
                    Some((price, reason)) => booked(
                        earlier,
                        earlier.holdings,
                        position,
                        days[j].date,
                        price,
                        reason,
                        next,
                    ),
                }
            };
        match decision {
            None => {
                assert forall|p: int| 0 <= p < next.holdings.len() implies position_stands(
                    days,
                    strategy.buys,
                    #[trigger] next.holdings[p],
                    j,
                ) by {
                    if p < earlier.holdings.len() {
                        assert(next.holdings[p] == earlier.holdings[p]);
                    }
                }
            },
            Some((price, reason)) => {
                lemma_sold(
                    days,
                    strategy,
                    earlier,
                    earlier.holdings,
                    position,
                    j,
                    price,
                    reason,
                    next,
                );
            },
        }
    }
}

proof fn lemma_rotation_story<N: Number>(
    days: Seq<TradingDay<N>>,
    strategy: Strategy<N>,
    account: Account<N>,
    held: Seq<Ranked>,
    j: int,
    count: nat,
    next: Account<N>,
)
    requires
        0 <= j < days.len() - 1,
        strategy.rotates,
        trades_stand(days, strategy, account.trades, j + 1),
        positions_stand(days, strategy, account.holdings, j),
        rotated_upto(account, held, days[j], strategy.buys.fill, count, next),
    ensures
        trades_stand(days, strategy, next.trades, j + 1),
        positions_stand(days, strategy, next.holdings, j),
    decreases count,
{
    if count > 0 {
        let before = (count - 1) as nat;
        let fill = strategy.buys.fill;
        let ticker = held[count - 1].name@;
        let earlier = choose|earlier: Account<N>|
            {
                &&& rotated_upto(account, held, days[j], fill, before, earlier)
                &&& #[trigger] rotate_step(earlier, ticker, days[j], fill, next)
            };
        lemma_rotation_story(days, strategy, account, held, j, before, earlier);
        let (at, price) = choose|at: int, price: N|
            {
                &&& 0 <= at < earlier.holdings.len()
                &&& earlier.holdings[at].ticker@ == ticker
                &&& bar_of(days[j].bars@, ticker) matches Some(bar) && sell_price_is(
                    bar,
                    fill,
                    price,
                )
                &&& #[trigger] booked(
                    earlier,
                    earlier.holdings.remove(at),
                    earlier.holdings[at],
                    days[j].date,
                    price,
                    ExitReason::Rotate,
                    next,
                )
            };
        lemma_sold(
            days,
            strategy,
            earlier,
            earlier.holdings.remove(at),
            earlier.holdings[at],
            j,
            price,
            ExitReason::Rotate,
            next,
        );
        assert forall|p: int| 0 <= p < next.holdings.len() implies position_stands(
            days,
            strategy.buys,
            #[trigger] next.holdings[p],
            j,
        ) by {
            let q = if p < at {
                p
            } else {
                p + 1
            };
            assert(next.holdings[p] == earlier.holdings[q]);
        }
    }
}

spec fn old_or_fresh<N: Number>(
    days: Seq<TradingDay<N>>,
    strategy: Strategy<N>,
    positions: Seq<Position<N>>,
    j: int,
) -> bool {
    forall|p: int|
        0 <= p < positions.len() ==> position_stands(
            days,
            strategy.buys,
            #[trigger] positions[p],
            j,
        ) || fresh(days, strategy.buys, positions[p], j)
}

proof fn lemma_buys_story<N: Number>(
    days: Seq<TradingDay<N>>,
    strategy: Strategy<N>,
    account: Account<N>,
    list: Seq<Ranked>,
    j: int,
    target: N,
    count: nat,
    next: Account<N>,
)
    requires
        0 <= j < days.len() <= usize::MAX,
        positions_stand(days, strategy, account.holdings, j),
        candidates_are(days[j].bars@, account.holdings, strategy.buys.threshold, list),
        count <= list.len(),
        buys_upto(account, list, days[j], j as usize, strategy.buys, target, count, next),
    ensures
        next.trades == account.trades,
        old_or_fresh(days, strategy, next.holdings, j),
    decreases count,
{
    if count > 0 {
        let before = (count - 1) as nat;
        let rules = strategy.buys;
        let bars = days[j].bars@;
        let slot = list[count - 1].slot as int;
        let entry = bars[slot];
        let earlier = choose|earlier: Account<N>|
            {
                &&& buys_upto(account, list, days[j], j as usize, rules, target, before, earlier)
                &&& #[trigger] buy_step(
                    earlier,
                    entry,
                    days[j].date,
                    j as usize,
                    rules,
                    target,
                    next,
                )
            };
        lemma_buys_story(days, strategy, account, list, j, target, before, earlier);
        if next != earlier {
            let picks = choose|picks: Seq<bool>| #[trigger]
                picks_are(bars, account.holdings, rules.threshold, picks) && strongest_first(
                    bars,
                    picks,
                    list,
                );
            assert(stands_for(bars, list[count - 1]) && picks[slot]);
            assert(pick_is(bars[slot], account.holdings, rules.threshold, picks[slot]));
            let (price, budget, shares) = choose|price: N, budget: N, shares: N|
                {
                    &&& buy_price_is(entry.bar, rules.fill, price)
                    &&& #[trigger] affordable_is(budget, price, earlier.cash, shares)
                    &&& bought(earlier, entry, days[j].date, j as usize, price, shares, next)
                };
            let (amount, cost) = choose|amount: N, cost: N|
                {
                    &&& #[trigger] cost_is(price, shares, amount, cost)
                    &&& next.holdings == earlier.holdings.push(
                        Position {
                            ticker: entry.ticker,
                            holding: Holding {
                                shares,
                                cost,
                                mark: entry.bar.close,
                                entry_date: days[j].date,
                                entry_price: price,
                                entry_index: j as usize,
                            },
                        },
                    )
                };
            assert forall|p: int| 0 <= p < next.holdings.len() implies position_stands(
                days,
                rules,
                #[trigger] next.holdings[p],
                j,
            ) || fresh(days, rules, next.holdings[p], j) by {
                if p < earlier.holdings.len() {
                    assert(next.holdings[p] == earlier.holdings[p]);
                } else {
                    assert(entered(days, rules, next.holdings[p], j, slot, amount));
                }
            }
        }
    }
}

proof fn lemma_marked_story<N: Number>(
    days: Seq<TradingDay<N>>,
    strategy: Strategy<N>,
    positions: Seq<Position<N>>,
    j: int,
)
    requires
        0 <= j < days.len(),
        old_or_fresh(days, strategy, positions, j),
    ensures
        positions_stand(days, strategy, marked(positions, days[j].bars@), j + 1),
{
    let buys = strategy.buys;
    let bars = days[j].bars@;
    let after = marked(positions, bars);
    assert forall|p: int| 0 <= p < after.len() implies position_stands(
        days,
        buys,
        #[trigger] after[p],
        j + 1,
    ) by {
        let (old, new) = (positions[p], after[p]);
        let ticker = old.ticker@;
        if position_stands(days, buys, old, j) {
            let (i, slot, amount, k, at) = choose|i: int, slot: int, amount: N, k: int, at: int|
                {
                    &&& i < j
                    &&& #[trigger] entered(days, buys, old, i, slot, amount)
                    &&& #[trigger] last_close(days, ticker, old.holding.mark, i, k, at, j)
                };
            assert(entered(days, buys, new, i, slot, amount));
            if exists|found: int| bar_stands(bars, ticker, found) {
                let found = choose|found: int| bar_stands(bars, ticker, found);
                assert(last_close(days, ticker, new.holding.mark, i, j, found, j + 1));
            } else {
                assert forall|later: int, other: int| k < later < j + 1 implies !(
                #[trigger] trades_in(days, later, other, ticker)) by {
                    if later == j && trades_in(days, later, other, ticker) {
                        assert(bar_stands(bars, ticker, other));
                    }
                }
                assert(last_close(days, ticker, new.holding.mark, i, k, at, j + 1));
            }
        } else {
            let (slot, amount) = choose|slot: int, amount: N| #[trigger]
                entered(days, buys, old, j, slot, amount) && days[j].bars@[slot].bar.close
                    == old.holding.mark;
            assert(entered(days, buys, new, j, slot, amount));
            assert(bar_stands(bars, ticker, slot));
            let found = choose|found: int| bar_stands(bars, ticker, found);
            assert(last_close(days, ticker, new.holding.mark, j, j, found, j + 1));
        }
    }
}

#[verifier::rlimit(30)]
proof fn lemma_day_story<N: Number>(
    days: Seq<TradingDay<N>>,
    strategy: Strategy<N>,
    account: Account<N>,
    j: int,
    next: Account<N>,
    worth: N,
)
    requires
        0 <= j < days.len() <= usize::MAX,
        trades_stand(days, strategy, account.trades, j),
        positions_stand(days, strategy, account.holdings, j),
        day_at(days, strategy, j, account, next, worth),
    ensures
        trades_stand(days, strategy, next.trades, j + 1),
        positions_stand(days, strategy, next.holdings, j + 1),
{
    let (day, index, is_last) = (days[j], j as usize, j == days.len() - 1);
    let rules = strategy.buys;
    let (sold, filled) = choose|sold: Account<N>, filled: Account<N>|
        {
            &&& sell_phase_is(account, day, index as int, is_last, strategy.exits, sold)
            &&& #[trigger] opened_is(sold, day, index, is_last, strategy, filled)
            &&& next == (Account { holdings: marked(filled.holdings, day.bars@), ..filled })
            &&& equity_is(next, worth)
        };
    assert forall|t: int| 0 <= t < account.trades.len() implies trade_stands(
        days,
        strategy,
        #[trigger] account.trades[t],
        j + 1,
    ) by {
        assert(trade_stands(days, strategy, account.trades[t], j));
    }
    lemma_exits_story(days, strategy, account, j, account.holdings.len(), sold);
    if is_last {
        assert(filled == sold);
    } else {
        let rotated = choose|rotated: Account<N>|
            {
                &&& (if strategy.rotates {
                    rotate_phase_is(sold, day, rules, rotated)
                } else {
                    rotated == sold
                })
                &&& #[trigger] buy_phase_is(rotated, day, index, rules, filled)
            };
        if strategy.rotates && rotated != sold {
            let (held, count) = choose|held: Seq<Ranked>, count: nat| #[trigger]
                rotated_upto(sold, held, day, rules.fill, count, rotated);
            lemma_rotation_story(days, strategy, sold, held, j, count, rotated);
        }
        let (target, list) = choose|target: N, list: Seq<Ranked>|
            {
                &&& #[trigger] candidates_are(day.bars@, rotated.holdings, rules.threshold, list)
                &&& #[trigger] buys_upto(
                    rotated,
                    list,
                    day,
                    index,
                    rules,
                    target,
                    list.len(),
                    filled,
                )
            };
        lemma_buys_story(days, strategy, rotated, list, j, target, list.len(), filled);
    }
    lemma_marked_story(days, strategy, filled.holdings, j);
}

proof fn lemma_run_story<N: Number>(
    days: Seq<TradingDay<N>>,
    strategy: Strategy<N>,
    count: nat,
    account: Account<N>,
    curve: Seq<EquityPoint<N>>,
)
    requires
        count <= days.len() <= usize::MAX,
        runs_upto(days, strategy, count, account, curve),
    ensures
        trades_stand(days, strategy, account.trades, count as int),
        positions_stand(days, strategy, account.holdings, count as int),
    decreases count,
{
    if count > 0 {
        let before = (count - 1) as nat;
        let earlier = choose|earlier: Account<N>|
            {
                &&& runs_upto(days, strategy, before, earlier, curve.drop_last())
                &&& #[trigger] day_at(
                    days,
                    strategy,
                    count - 1,
                    earlier,
                    account,
                    curve.last().equity,
                )
            };
        lemma_run_story(days, strategy, before, earlier, curve.drop_last());
        lemma_day_story(days, strategy, earlier, count - 1, account, curve.last().equity);
    }
}

/// What a sale of `bar` asks for: the day's high, or its open.
pub open spec fn ask<N>(value: spec_fn(N) -> real, bar: DayBar<N>, fill: Fill) -> real {
    match fill {
        Fill::LowHigh => value(bar.high),
        Fill::Open => value(bar.open),
    }
}

/// The trade was opened on day `i` by a bar of its ticker, at `slot`, that scored above the
/// threshold: filled at the tick above the bid, for the outlay that its shares take.
pub open spec fn opened_by<N>(
    value: spec_fn(N) -> real,
    days: Seq<TradingDay<N>>,
    buys: BuyRules<N>,
    trade: Trade<N>,
    i: int,
    slot: int,
) -> bool {
    &&& trades_in(days, i, slot, trade.ticker@)
    &&& trade.entry_date == days[i].date
    &&& value(days[i].bars@[slot].bar.score) > value(buys.threshold)
    &&& fills_above(value(trade.entry_price), bid(value, days[i].bars@[slot].bar, buys.fill))
    &&& value(trade.cost) == outlay(value(trade.entry_price), value(trade.shares))
}

/// The trade brought what its shares fetch net of fees; its profit is that less the cost, and
/// its return is the profit over the cost.
pub open spec fn adds_up<N>(value: spec_fn(N) -> real, trade: Trade<N>) -> bool {
    &&& value(trade.proceeds) == takings(value(trade.exit_price), value(trade.shares))
    &&& value(trade.pnl) == value(trade.proceeds) - value(trade.cost)
    &&& value(trade.cost) != 0 as real ==> value(trade.return_pct) * value(trade.cost) == value(
        trade.pnl,
    )
}

/// The reason and the price of an exit fit the bar of that day, `held` days after the entry.
pub open spec fn fits_bar<N>(
    value: spec_fn(N) -> real,
    strategy: Strategy<N>,
    trade: Trade<N>,
    bar: DayBar<N>,
    held: int,
    is_last: bool,
) -> bool {
    let price = value(trade.exit_price);
    let sell = bar.action == Action::Sell;
    if trade.exit_reason == ExitReason::Rotate {
        strategy.rotates && !is_last && fills_below(price, ask(value, bar, strategy.buys.fill))
    } else {
        match strategy.exits {
            ExitRules::Signals(fill) => {
                &&& fills_below(price, ask(value, bar, fill))
                &&& sell <==> trade.exit_reason == ExitReason::Signal
                &&& !sell ==> trade.exit_reason == ExitReason::Final && is_last
            },
            ExitRules::Barriers(config) => {
                let upper = value(trade.entry_price) * (1 as real + value(config.take_profit));
                let lower = value(trade.entry_price) * (1 as real - value(config.stop_loss));
                let over = value(bar.high) >= upper;
                let under = value(bar.low) <= lower;
                match trade.exit_reason {
                    ExitReason::TakeProfit => over && fills_below(price, upper),
                    ExitReason::StopLoss => !over && under && fills_below(price, lower),
                    ExitReason::Time => !over && !under && held >= config.max_hold_days
                        && fills_below(price, value(bar.close)),
                    ExitReason::Signal => !over && !under && held < config.max_hold_days && sell
                        && fills_below(price, ask(value, bar, config.fill)),
                    ExitReason::Final => !over && !under && held < config.max_hold_days && !sell
                        && is_last && fills_below(price, ask(value, bar, config.fill)),
                    ExitReason::Rotate => false,
                }
            },
        }
    }
}

/// The trade was closed on day `j`, after it was opened on day `i`: as its bar of that day has
/// it; without a bar only when the run ended, at the last close.
pub open spec fn closed_by<N>(
    value: spec_fn(N) -> real,
    days: Seq<TradingDay<N>>,
    strategy: Strategy<N>,
    trade: Trade<N>,
    i: int,
    j: int,
) -> bool {
    &&& i < j < days.len()
    &&& trade.exit_date == days[j].date
    &&& {
        ||| exists|slot: int| #[trigger]
            trades_in(days, j, slot, trade.ticker@) && fits_bar(
                value,
                strategy,
                trade,
                days[j].bars@[slot].bar,
                j - i,
                j == days.len() - 1,
            )
        ||| {
            &&& j == days.len() - 1
            &&& trade.exit_reason == ExitReason::Final
            &&& forall|slot: int| !(#[trigger] trades_in(days, j, slot, trade.ticker@))
            &&& exists|k: int, at: int| #[trigger]
                last_close(days, trade.ticker@, trade.exit_price, i, k, at, j)
        }
    }
}

proof fn lemma_verdict<N: Number>(
    value: spec_fn(N) -> real,
    days: Seq<TradingDay<N>>,
    strategy: Strategy<N>,
    position: Position<N>,
    trade: Trade<N>,
    i: int,
    j: int,
    slot: int,
)
    requires
        exact(value),
        0 <= i < j < days.len(),
        position.holding.entry_index == i,
        position.holding.entry_price == trade.entry_price,
        position.ticker@ == trade.ticker@,
        bar_stands(days[j].bars@, trade.ticker@, slot),
        bar_of(days[j].bars@, trade.ticker@) == Some(days[j].bars@[slot].bar),
        left(days, strategy, position, j, trade.exit_price, trade.exit_reason),
    ensures
        fits_bar(
            value,
            strategy,
            trade,
            days[j].bars@[slot].bar,
            j - i,
            j == days.len() - 1,
        ),
{
    let bar = days[j].bars@[slot].bar;
    let is_last = j == days.len() - 1;
    let decision = Some((trade.exit_price, trade.exit_reason));
    let holding = position.holding;
    if exit_is(holding, Some(bar), j, is_last, strategy.exits, decision) {
        match strategy.exits {
            ExitRules::Signals(fill) => {
                signals_close_on_sell_and_at_the_end(value, holding, bar, is_last, fill, decision);
            },
            ExitRules::Barriers(config) => {
                profit_is_taken_at_a_touch(value, holding, bar, j, is_last, config, decision);
                loss_is_stopped_at_a_touch(value, holding, bar, j, is_last, config, decision);
                if value(bar.high) < profit_barrier(value, holding, config) && value(bar.low)
                    > loss_barrier(value, holding, config) {
                    holding_between_the_barriers_leaves_in_order(
                        value,
                        holding,
                        bar,
                        j,
                        is_last,
                        config,
                        decision,
                    );
                }
            },
        }
    } else {
        sales_fill_below_the_bar(value, bar, strategy.buys.fill, trade.exit_price);
    }
}

/// In an exact format every trade of a run is a round trip that its days account for: it was
/// opened by a bar above the threshold and closed on a later day, by the rule it names, at the
/// price that rule gives, and its figures add up.
pub proof fn trades_are_round_trips<N: Number>(
    value: spec_fn(N) -> real,
    days: Seq<TradingDay<N>>,
    strategy: Strategy<N>,
    count: nat,
    account: Account<N>,
    curve: Seq<EquityPoint<N>>,
    t: int,
)
    requires
        exact(value),
        count <= days.len() <= usize::MAX,
        runs_upto(days, strategy, count, account, curve),
        0 <= t < account.trades.len(),
    ensures
        adds_up(value, account.trades[t]),
        exists|i: int, slot: int, j: int|
            {
                &&& #[trigger] opened_by(value, days, strategy.buys, account.trades[t], i, slot)
                &&& #[trigger] closed_by(value, days, strategy, account.trades[t], i, j)
                &&& j < count
            },
{
    lemma_run_story(days, strategy, count, account, curve);
    let trade = account.trades[t];
    assert(trade_stands(days, strategy, trade, count as int));
    let (position, j, cash, sale) = choose|
        position: Position<N>,
        j: int,
        cash: N,
        sale: SaleFigures<N>,
    |
        j < count && #[trigger] closed(days, strategy, position, j, cash, sale, trade);
    sales_bring_their_takings(value, cash, position.holding, trade.exit_price, sale);
    let (i, slot, amount, k, at) = choose|i: int, slot: int, amount: N, k: int, at: int|
        {
            &&& i < j
            &&& #[trigger] entered(days, strategy.buys, position, i, slot, amount)
            &&& #[trigger] last_close(
                days,
                position.ticker@,
                position.holding.mark,
                i,
                k,
                at,
                j,
            )
        };
    let holding = position.holding;
    buys_cost_their_outlay(value, holding.entry_price, holding.shares, amount, holding.cost);
    buys_fill_above_the_bar(
        value,
        days[i].bars@[slot].bar,
        strategy.buys.fill,
        holding.entry_price,
    );
    assert(opened_by(value, days, strategy.buys, trade, i, slot));
    let bars = days[j].bars@;
    let ticker = trade.ticker@;
    if exists|found: int| bar_stands(bars, ticker, found) {
        let found = choose|found: int| bar_stands(bars, ticker, found);
        lemma_verdict(value, days, strategy, position, trade, i, j, found);
        assert(trades_in(days, j, found, ticker));
    } else {
        assert forall|other: int| !(#[trigger] trades_in(days, j, other, ticker)) by {
            assert(!bar_stands(bars, ticker, other));
        }
        assert(bar_of(bars, ticker) is None);
        assert(last_close(days, ticker, trade.exit_price, i, k, at, j));
    }
    assert(closed_by(value, days, strategy, trade, i, j));
}

/// A trade that left by the time barrier was held for as many trading days as the barrier asks:
/// so many days of the run lie between its entry and its exit.
pub proof fn time_exits_were_held_long_enough<N: Number>(
    days: Seq<TradingDay<N>>,
    config: BacktestConfig<N>,
    strategy: Strategy<N>,
    count: nat,
    account: Account<N>,
    curve: Seq<EquityPoint<N>>,
    t: int,
    i: int,
    j: int,
)
    requires
        count <= days.len() <= usize::MAX,
        strategy.exits == ExitRules::Barriers(config),
        runs_upto(days, strategy, count, account, curve),
        forall|a: int, b: int|
            0 <= a < b < days.len() ==> (#[trigger] days[a]).date < (#[trigger] days[b]).date,
        0 <= t < account.trades.len(),
        account.trades[t].exit_reason == ExitReason::Time,
        0 <= i < days.len(),
        0 <= j < days.len(),
        account.trades[t].entry_date == days[i].date,
        account.trades[t].exit_date == days[j].date,
    ensures
        j - i >= config.max_hold_days,
{
    lemma_run_story(days, strategy, count, account, curve);
    let trade = account.trades[t];
    assert(trade_stands(days, strategy, trade, count as int));
    let (position, exit, cash, sale) = choose|
        position: Position<N>,
        exit: int,
        cash: N,
        sale: SaleFigures<N>,
    |
        exit < count && #[trigger] closed(days, strategy, position, exit, cash, sale, trade);
    let (entry, slot, amount, k, at) = choose|
        entry: int,
        slot: int,
        amount: N,
        k: int,
        at: int,
    |
        {
            &&& entry < exit
            &&& #[trigger] entered(days, strategy.buys, position, entry, slot, amount)
            &&& #[trigger] last_close(
                days,
                position.ticker@,
                position.holding.mark,
                entry,
                k,
                at,
                exit,
            )
        };
    assert(days[entry].date == days[i].date && days[exit].date == days[j].date);
    assert(entry == i && exit == j);
}

/// Every trade of a run was closed on a later day than it was opened.
pub proof fn trades_close_after_they_open<N: Number>(
    days: Seq<TradingDay<N>>,
    strategy: Strategy<N>,
    count: nat,
    account: Account<N>,
    curve: Seq<EquityPoint<N>>,
    t: int,
)
    requires
        count <= days.len() <= usize::MAX,
        runs_upto(days, strategy, count, account, curve),
        forall|a: int, b: int|
            0 <= a < b < days.len() ==> (#[trigger] days[a]).date < (#[trigger] days[b]).date,
        0 <= t < account.trades.len(),
    ensures
        account.trades[t].entry_date < account.trades[t].exit_date,
{
    lemma_run_story(days, strategy, count, account, curve);
    let trade = account.trades[t];
    assert(trade_stands(days, strategy, trade, count as int));
    let (position, exit, cash, sale) = choose|
        position: Position<N>,
        exit: int,
        cash: N,
        sale: SaleFigures<N>,
    |
        exit < count && #[trigger] closed(days, strategy, position, exit, cash, sale, trade);
    let (entry, slot, amount, k, at) = choose|
        entry: int,
        slot: int,
        amount: N,
        k: int,
        at: int,
    |
        {
            &&& entry < exit
            &&& #[trigger] entered(days, strategy.buys, position, entry, slot, amount)
            &&& #[trigger] last_close(
                days,
                position.ticker@,
                position.holding.mark,
                entry,
                k,
                at,
                exit,
            )
        };
    assert(days[entry].date < days[exit].date);
}

/// Wherever a run stands, an open position was bought on a day `i` of the run by a bar above
/// the threshold, and is marked at its last close since.
pub proof fn positions_are_marked_at_their_last_close<N: Number>(
    value: spec_fn(N) -> real,
    days: Seq<TradingDay<N>>,
    strategy: Strategy<N>,
    count: nat,
    account: Account<N>,
    curve: Seq<EquityPoint<N>>,
    p: int,
)
    requires
        exact(value),
        count <= days.len() <= usize::MAX,
        runs_upto(days, strategy, count, account, curve),
        0 <= p < account.holdings.len(),
    ensures
        ({
            let ticker = account.holdings[p].ticker@;
            let holding = account.holdings[p].holding;
            exists|i: int, slot: int, k: int, at: int|
                {
                    &&& #[trigger] trades_in(days, i, slot, ticker)
                    &&& i < count
                    &&& holding.entry_index == i
                    &&& holding.entry_date == days[i].date
                    &&& value(days[i].bars@[slot].bar.score) > value(strategy.buys.threshold)
                    &&& fills_above(
                        value(holding.entry_price),
                        bid(value, days[i].bars@[slot].bar, strategy.buys.fill),
                    )
                    &&& value(holding.cost) == outlay(
                        value(holding.entry_price),
                        value(holding.shares),
                    )
                    &&& #[trigger] last_close(
                        days,
                        ticker,
                        holding.mark,
                        i,
                        k,
                        at,
                        count as int,
                    )
                }
        }),
{
    lemma_run_story(days, strategy, count, account, curve);
    let position = account.holdings[p];
    let holding = position.holding;
    assert(position_stands(days, strategy.buys, position, count as int));
    let (i, slot, amount, k, at) = choose|i: int, slot: int, amount: N, k: int, at: int|
        {
            &&& i < count
            &&& #[trigger] entered(days, strategy.buys, position, i, slot, amount)
            &&& #[trigger] last_close(
                days,
                position.ticker@,
                holding.mark,
                i,
                k,
                at,
                count as int,
            )
        };
    buys_cost_their_outlay(value, holding.entry_price, holding.shares, amount, holding.cost);
    buys_fill_above_the_bar(
        value,
        days[i].bars@[slot].bar,
        strategy.buys.fill,
        holding.entry_price,
    );
    assert(trades_in(days, i, slot, position.ticker@));
}

/// In an exact format the last point of the curve is the whole account: the cash, and every
/// open position at its mark.
pub proof fn curve_ends_at_the_whole_account<N: Number>(
    value: spec_fn(N) -> real,
    days: Seq<TradingDay<N>>,
    strategy: Strategy<N>,
    count: nat,
    account: Account<N>,
    curve: Seq<EquityPoint<N>>,
    prices: Seq<real>,
)
    requires
        exact(value),
        count > 0,
        runs_upto(days, strategy, count, account, curve),
        prices.len() == account.holdings.len(),
        forall|p: int|
            0 <= p < prices.len() ==> #[trigger] prices[p] == value(
                account.holdings[p].holding.mark,
            ),
    ensures
        value(curve.last().equity) == value(account.cash) + worth_at(
            value,
            account.holdings,
            prices,
        ),
        curve.last().date == days[count - 1].date,
{
    let earlier = choose|earlier: Account<N>| #[trigger]
        day_at(days, strategy, count - 1, earlier, account, curve.last().equity);
    equity_counts_every_position_at_its_mark(value, account, prices, curve.last().equity);
}

} // verus!
