//! The books of a run balance: what it ends with is what it began with and what its trades
//! earned.
use vstd::prelude::*;

use crate::number::Number;
#[allow(unused_imports)]
use crate::number::{difference_is, exact, sum_is, total_is};
#[allow(unused_imports)]
use crate::portfolio::exits::{exit_step, exits_upto, sell_phase_is, ExitRules};
#[allow(unused_imports)]
use crate::portfolio::orders::{
    affordable_is, booked, bought, buy_phase_is, buy_step, buys_upto, candidates_are, closed_trade,
    cost_is, equity_is, holdings_value_is, marked, sale_is, BuyRules, SaleFigures,
};
#[allow(unused_imports)]
use crate::portfolio::ranking::Ranked;
#[allow(unused_imports)]
use crate::portfolio::rotation::{rotate_phase_is, rotate_step, rotated_upto};
#[allow(unused_imports)]
use crate::portfolio::simulation::{
    day_at, day_is, opened_is, run_keeps_sound, runs_upto, Strategy,
};
#[allow(unused_imports)]
use crate::portfolio::types::{
    Account, EquityPoint, ExitReason, Fill, Position, TickerBar, Trade, TradingDay,
};

verus! {

/// What the trades earned together, in reals.
pub open spec fn earned<N>(value: spec_fn(N) -> real, trades: Seq<Trade<N>>) -> real
    decreases trades.len(),
{
    if trades.len() == 0 {
        0 as real
    } else {
        earned(value, trades.drop_last()) + value(trades.last().pnl)
    }
}

/// What the positions cost together, in reals.
pub open spec fn invested<N>(value: spec_fn(N) -> real, positions: Seq<Position<N>>) -> real
    decreases positions.len(),
{
    if positions.len() == 0 {
        0 as real
    } else {
        invested(value, positions.drop_last()) + value(positions.last().holding.cost)
    }
}

/// The books of an account that holds `positions` balance: the cash and what the positions
/// cost is the opening balance and what the trades earned.
pub open spec fn balanced<N>(
    value: spec_fn(N) -> real,
    account: Account<N>,
    positions: Seq<Position<N>>,
    starting_cash: N,
) -> bool {
    value(account.cash) + invested(value, positions) == value(starting_cash) + earned(
        value,
        account.trades,
    )
}

proof fn lemma_invested_without<N>(
    value: spec_fn(N) -> real,
    positions: Seq<Position<N>>,
    at: int,
)
    requires
        0 <= at < positions.len(),
    ensures
        invested(value, positions.remove(at)) == invested(value, positions) - value(
            positions[at].holding.cost,
        ),
    decreases positions.len(),
{
    let shorter = positions.drop_last();
    if at == positions.len() - 1 {
        assert(positions.remove(at) =~= shorter);
    } else {
        lemma_invested_without(value, shorter, at);
        assert(positions.remove(at).drop_last() =~= shorter.remove(at));
        assert(positions.remove(at).last() == positions.last());
    }
}

proof fn lemma_invested_marked<N>(
    value: spec_fn(N) -> real,
    positions: Seq<Position<N>>,
    bars: Seq<TickerBar<N>>,
)
    ensures
        invested(value, marked(positions, bars)) == invested(value, positions),
    decreases positions.len(),
{
    if positions.len() > 0 {
        lemma_invested_marked(value, positions.drop_last(), bars);
        assert(marked(positions, bars).drop_last() =~= marked(positions.drop_last(), bars));
    }
}

proof fn lemma_sale_balances<N: Number>(
    value: spec_fn(N) -> real,
    account: Account<N>,
    positions: Seq<Position<N>>,
    at: int,
    remaining: Seq<Position<N>>,
    date: i32,
    price: N,
    reason: ExitReason,
    next: Account<N>,
    starting_cash: N,
)
    requires
        exact(value),
        0 <= at < positions.len(),
        booked(account, remaining, positions[at], date, price, reason, next),
        balanced(value, account, positions, starting_cash),
    ensures
        balanced(value, next, positions.remove(at), starting_cash),
{
    let position = positions[at];
    let sale = choose|sale: SaleFigures<N>|
        {
            &&& #[trigger] sale_is(account.cash, position.holding, price, sale)
            &&& next.cash == sale.cash_after
            &&& next.trades == account.trades.push(
                closed_trade(position, date, price, reason, sale),
            )
        };
    assert(sum_is(account.cash, sale.proceeds, sale.cash_after));
    assert(difference_is(sale.proceeds, position.holding.cost, sale.pnl));
    assert(next.trades.drop_last() =~= account.trades);
    lemma_invested_without(value, positions, at);
}

proof fn lemma_exits_balance<N: Number>(
    value: spec_fn(N) -> real,
    account: Account<N>,
    day: TradingDay<N>,
    index: int,
    is_last: bool,
    rules: ExitRules<N>,
    count: nat,
    next: Account<N>,
    starting_cash: N,
)
    requires
        exact(value),
        balanced(value, account, account.holdings, starting_cash),
        count <= account.holdings.len(),
        exits_upto(account, day, index, is_last, rules, count, next),
    ensures
        balanced(
            value,
            next,
            next.holdings + account.holdings.skip(count as int),
            starting_cash,
        ),
    decreases count,
{
    if count == 0 {
        assert(next.holdings + account.holdings.skip(0) =~= account.holdings);
    } else {
        let before = (count - 1) as nat;
        let position = account.holdings[count - 1];
        let earlier = choose|earlier: Account<N>|
            {
                &&& exits_upto(account, day, index, is_last, rules, before, earlier)
                &&& #[trigger] exit_step(earlier, position, day, index, is_last, rules, next)
            };
        lemma_exits_balance(
            value,
            account,
            day,
            index,
            is_last,
            rules,
            before,
            earlier,
            starting_cash,
        );
        let positions = earlier.holdings + account.holdings.skip(before as int);
        let at = earlier.holdings.len() as int;
        assert(positions[at] == position);
        if next.trades.len() == earlier.trades.len() {
            assert(next.holdings + account.holdings.skip(count as int) =~= positions);
        } else {
            let (price, reason) = choose|price: N, reason: ExitReason| #[trigger]
                booked(earlier, earlier.holdings, position, day.date, price, reason, next);
            lemma_sale_balances(
                value,
                earlier,
                positions,
                at,
                earlier.holdings,
                day.date,
                price,
                reason,
                next,
                starting_cash,
            );
            assert(next.holdings + account.holdings.skip(count as int) =~= positions.remove(at));
        }
    }
}

proof fn lemma_rotation_balances<N: Number>(
    value: spec_fn(N) -> real,
    account: Account<N>,
    held: Seq<Ranked>,
    day: TradingDay<N>,
    fill: Fill,
    count: nat,
    next: Account<N>,
    starting_cash: N,
)
    requires
        exact(value),
        balanced(value, account, account.holdings, starting_cash),
        rotated_upto(account, held, day, fill, count, next),
    ensures
        balanced(value, next, next.holdings, starting_cash),
    decreases count,
{
    if count > 0 {
        let before = (count - 1) as nat;
        let ticker = held[count - 1].name@;
        let earlier = choose|earlier: Account<N>|
            {
                &&& rotated_upto(account, held, day, fill, before, earlier)
                &&& #[trigger] rotate_step(earlier, ticker, day, fill, next)
            };
        lemma_rotation_balances(value, account, held, day, fill, before, earlier, starting_cash);
        let (at, price) = choose|at: int, price: N|
            0 <= at < earlier.holdings.len() && #[trigger] booked(
                earlier,
                earlier.holdings.remove(at),
                earlier.holdings[at],
                day.date,
                price,
                ExitReason::Rotate,
                next,
            );
        lemma_sale_balances(
            value,
            earlier,
            earlier.holdings,
            at,
            earlier.holdings.remove(at),
            day.date,
            price,
            ExitReason::Rotate,
            next,
            starting_cash,
        );
    }
}

proof fn lemma_buys_balance<N: Number>(
    value: spec_fn(N) -> real,
    account: Account<N>,
    list: Seq<Ranked>,
    day: TradingDay<N>,
    index: usize,
    rules: BuyRules<N>,
    target: N,
    count: nat,
    next: Account<N>,
    starting_cash: N,
)
    requires
        exact(value),
        balanced(value, account, account.holdings, starting_cash),
        buys_upto(account, list, day, index, rules, target, count, next),
    ensures
        balanced(value, next, next.holdings, starting_cash),
    decreases count,
{
    if count > 0 {
        let before = (count - 1) as nat;
        let entry = day.bars@[list[count - 1].slot as int];
        let earlier = choose|earlier: Account<N>|
            {
                &&& buys_upto(account, list, day, index, rules, target, before, earlier)
                &&& #[trigger] buy_step(earlier, entry, day.date, index, rules, target, next)
            };
        lemma_buys_balance(
            value,
            account,
            list,
            day,
            index,
            rules,
            target,
            before,
            earlier,
            starting_cash,
        );
        if next != earlier {
            let (price, budget, shares) = choose|price: N, budget: N, shares: N|
                {
                    &&& #[trigger] affordable_is(budget, price, earlier.cash, shares)
                    &&& bought(earlier, entry, day.date, index, price, shares, next)
                };
            let (amount, cost) = choose|amount: N, cost: N|
                {
                    &&& #[trigger] cost_is(price, shares, amount, cost)
                    &&& difference_is(earlier.cash, cost, next.cash)
                    &&& next.holdings.last().holding.cost == cost
                };
            assert(difference_is(earlier.cash, cost, next.cash));
            assert(next.holdings.drop_last() =~= earlier.holdings);
        }
    }
}

proof fn lemma_day_balances<N: Number>(
    value: spec_fn(N) -> real,
    account: Account<N>,
    day: TradingDay<N>,
    index: usize,
    is_last: bool,
    strategy: Strategy<N>,
    next: Account<N>,
    worth: N,
    starting_cash: N,
)
    requires
        exact(value),
        balanced(value, account, account.holdings, starting_cash),
        day_is(account, day, index, is_last, strategy, next, worth),
    ensures
        balanced(value, next, next.holdings, starting_cash),
        next.holdings.len() == 0 ==> value(worth) == value(next.cash),
{
    let exits = strategy.exits;
    let rules = strategy.buys;
    let (sold, filled) = choose|sold: Account<N>, filled: Account<N>|
        {
            &&& sell_phase_is(account, day, index as int, is_last, exits, sold)
            &&& #[trigger] opened_is(sold, day, index, is_last, strategy, filled)
            &&& next == (Account { holdings: marked(filled.holdings, day.bars@), ..filled })
            &&& equity_is(next, worth)
        };
    let held = account.holdings.len();
    lemma_exits_balance(
        value,
        account,
        day,
        index as int,
        is_last,
        exits,
        held,
        sold,
        starting_cash,
    );
    assert(sold.holdings + account.holdings.skip(held as int) =~= sold.holdings);
    if !is_last {
        let rotated = choose|rotated: Account<N>|
            {
                &&& (if strategy.rotates {
                    rotate_phase_is(sold, day, rules, rotated)
                } else {
                    rotated == sold
                })
                &&& #[trigger] buy_phase_is(rotated, day, index, rules, filled)
            };
        if strategy.rotates && rotated != sold {
            let (list, count) = choose|list: Seq<Ranked>, count: nat| #[trigger]
                rotated_upto(sold, list, day, rules.fill, count, rotated);
            lemma_rotation_balances(
                value,
                sold,
                list,
                day,
                rules.fill,
                count,
                rotated,
                starting_cash,
            );
        }
        let (target, list) = choose|target: N, list: Seq<Ranked>|
            {
                &&& #[trigger] candidates_are(day.bars@, rotated.holdings, rules.threshold, list)
                &&& #[trigger] buys_upto(
                    rotated,
                    list,
                    day,
                    index,
                    rules,
                    target,
                    list.len(),
                    filled,
                )
            };
        lemma_buys_balance(
            value,
            rotated,
            list,
            day,
            index,
            rules,
            target,
            list.len(),
            filled,
            starting_cash,
        );
    }
    lemma_invested_marked(value, filled.holdings, day.bars@);
    if next.holdings.len() == 0 {
        let total = choose|total: N| #[trigger]
            holdings_value_is(next.holdings, Seq::empty(), total) && sum_is(
                next.cash,
                total,
                worth,
            );
        assert(value(total) == 0 as real);
        assert(sum_is(next.cash, total, worth));
    }
}

/// In an exact format the books balance wherever a run stands.
pub proof fn books_balance_after_every_day<N: Number>(
    value: spec_fn(N) -> real,
    days: Seq<TradingDay<N>>,
    strategy: Strategy<N>,
    count: nat,
    account: Account<N>,
    curve: Seq<EquityPoint<N>>,
)
    requires
        exact(value),
        runs_upto(days, strategy, count, account, curve),
    ensures
        balanced(value, account, account.holdings, strategy.starting_cash),
        count > 0 && account.holdings.len() == 0 ==> value(curve.last().equity) == value(
            account.cash,
        ),
    decreases count,
{
    if count > 0 {
        let before = (count - 1) as nat;
        let earlier = choose|earlier: Account<N>|
            {
                &&& runs_upto(days, strategy, before, earlier, curve.drop_last())
                &&& #[trigger] day_at(
                    days,
                    strategy,
                    count - 1,
                    earlier,
                    account,
                    curve.last().equity,
                )
            };
        books_balance_after_every_day(value, days, strategy, before, earlier, curve.drop_last());
        lemma_day_balances(
            value,
            earlier,
            days[count - 1],
            (count - 1) as usize,
            count == days.len(),
            strategy,
            account,
            curve.last().equity,
            strategy.starting_cash,
        );
    }
}

/// In an exact format a finished run is worth its opening balance and what its trades earned.
pub proof fn run_is_worth_what_it_earned<N: Number>(
    value: spec_fn(N) -> real,
    days: Seq<TradingDay<N>>,
    strategy: Strategy<N>,
    account: Account<N>,
    curve: Seq<EquityPoint<N>>,
)
    requires
        exact(value),
        forall|i: int| 0 <= i < days.len() ==> (#[trigger] days[i]).wf(),
        0 < days.len() <= usize::MAX,
        runs_upto(days, strategy, days.len(), account, curve),
    ensures
        value(curve.last().equity) == value(strategy.starting_cash) + earned(
            value,
            account.trades,
        ),
{
    run_keeps_sound(days, strategy, days.len(), account, curve);
    books_balance_after_every_day(value, days, strategy, days.len(), account, curve);
}

} // verus!
