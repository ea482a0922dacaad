//! How much of the account a buy takes, who is bought, and in which order.
use vstd::prelude::*;

use crate::number::Number;
#[allow(unused_imports)]
use crate::number::{
    counts, difference_is, empty_sum_is, exact, exceeds_is, floor_is, product_is, quotient_is,
    rank_is, ratio_is, reaches_is, rounds_down, smaller_is, sum_is, total_is, whole_is,
};
#[allow(unused_imports)]
use crate::portfolio::eviction::lemma_bar_of;
#[allow(unused_imports)]
use crate::portfolio::fills::{
    buys_cost_their_outlay, buys_fill_above_the_bar, commission_on, fills_above,
    lots_are_thousands, outlay,
};
#[allow(unused_imports)]
use crate::portfolio::orders::{
    affordable_is, bought, buy_phase_is, buy_step, buys_upto, candidates_are, cost_is, covered_is,
    equity_is, holdings_value_is, lots_are, lots_too_dear, mark_on, marked, most_lots, pick_is,
    picks_are, stands_for, strongest_first, target_is, BuyRules,
};
#[allow(unused_imports)]
use crate::portfolio::pricing::{buy_price_is, LOT};
#[allow(unused_imports)]
use crate::portfolio::ranking::{in_order, lists_slot, sorted, Ranked};
#[allow(unused_imports)]
use crate::portfolio::types::{
    bar_of, bar_stands, distinct_bars, distinct_holdings, holds, Account, DayBar, Fill, Position,
    Side, TickerBar, TradeEvent, TradingDay,
};
#[allow(unused_imports)]
use crate::reals::{lemma_quotient, lemma_whole, ranks_by, real_sum, reals, totals_are_sums};

verus! {

/// `price` is what a share of `position` is worth on a day with `bars`: its close there, and
/// its last mark if its ticker has no bar.
pub open spec fn quotes<N>(
    value: spec_fn(N) -> real,
    bars: Seq<TickerBar<N>>,
    position: Position<N>,
    price: real,
) -> bool {
    &&& forall|slot: int|
        0 <= slot < bars.len() && (#[trigger] bars[slot]).ticker@ == position.ticker@ ==> price
            == value(bars[slot].bar.close)
    &&& (forall|slot: int|
        0 <= slot < bars.len() ==> (#[trigger] bars[slot]).ticker@ != position.ticker@)
        ==> price == value(position.holding.mark)
}

/// `prices` are what a share of each position is worth on a day with `bars`.
pub open spec fn all_quoted<N>(
    value: spec_fn(N) -> real,
    bars: Seq<TickerBar<N>>,
    positions: Seq<Position<N>>,
    prices: Seq<real>,
) -> bool {
    &&& prices.len() == positions.len()
    &&& forall|i: int|
        0 <= i < positions.len() ==> quotes(value, bars, positions[i], #[trigger] prices[i])
}

/// What the positions are worth at these prices a share.
pub open spec fn worth_at<N>(
    value: spec_fn(N) -> real,
    positions: Seq<Position<N>>,
    prices: Seq<real>,
) -> real
    decreases positions.len(),
{
    if positions.len() == 0 {
        0 as real
    } else {
        worth_at(value, positions.drop_last(), prices.drop_last()) + prices.last() * value(
            positions.last().holding.shares,
        )
    }
}

proof fn lemma_worth<N: Number>(
    value: spec_fn(N) -> real,
    positions: Seq<Position<N>>,
    prices: Seq<real>,
    values: Seq<N>,
)
    requires
        prices.len() == positions.len(),
        values.len() == positions.len(),
        forall|i: int|
            0 <= i < positions.len() ==> value(#[trigger] values[i]) == prices[i] * value(
                positions[i].holding.shares,
            ),
    ensures
        real_sum(reals(value, values)) == worth_at(value, positions, prices),
    decreases positions.len(),
{
    if positions.len() > 0 {
        let last = positions.len() - 1;
        let (fewer, lower, less) = (positions.drop_last(), prices.drop_last(), values.drop_last());
        assert forall|i: int| 0 <= i < fewer.len() implies value(#[trigger] less[i]) == lower[i]
            * value(fewer[i].holding.shares) by {
            assert(value(values[i]) == prices[i] * value(positions[i].holding.shares));
        }
        lemma_worth(value, fewer, lower, less);
        assert(value(values[last]) == prices[last] * value(positions[last].holding.shares));
        assert(reals(value, values).drop_last() =~= reals(value, less));
    }
}

/// In an exact format the holdings are worth the sum of their shares times the day's close,
/// or the last mark of those that did not trade.
pub proof fn holdings_are_worth_their_closes<N: Number>(
    value: spec_fn(N) -> real,
    positions: Seq<Position<N>>,
    bars: Seq<TickerBar<N>>,
    prices: Seq<real>,
    total: N,
)
    requires
        exact(value),
        distinct_bars(bars),
        holdings_value_is(positions, bars, total),
        all_quoted(value, bars, positions, prices),
    ensures
        value(total) == worth_at(value, positions, prices),
{
    let (start, values) = choose|start: N, values: Seq<N>|
        {
            &&& empty_sum_is(start)
            &&& values.len() == positions.len()
            &&& forall|i: int|
                0 <= i < values.len() ==> product_is(
                    mark_on(positions[i], bars),
                    positions[i].holding.shares,
                    #[trigger] values[i],
                )
            &&& #[trigger] total_is(start, values, total)
        };
    assert forall|i: int| 0 <= i < positions.len() implies value(#[trigger] values[i]) == prices[i]
        * value(positions[i].holding.shares) by {
        let position = positions[i];
        assert(product_is(mark_on(position, bars), position.holding.shares, values[i]));
        assert(quotes(value, bars, position, prices[i]));
        if exists|slot: int| bar_stands(bars, position.ticker@, slot) {
            let slot = choose|slot: int| bar_stands(bars, position.ticker@, slot);
            lemma_bar_of(bars, slot);
            assert(bars[slot].ticker@ == position.ticker@);
        } else {
            assert forall|slot: int| 0 <= slot < bars.len() implies (#[trigger] bars[slot]).ticker@
                != position.ticker@ by {
                assert(!bar_stands(bars, position.ticker@, slot));
            }
        }
    }
    lemma_worth(value, positions, prices, values);
    totals_are_sums(value, start, values, total);
}

/// The slots that the account is parted into: at least one.
pub open spec fn slots_of(max_holdings: usize) -> real {
    if max_holdings == 0 {
        1 as real
    } else {
        max_holdings as int as real
    }
}

/// In an exact format the target of a buy times the number of slots is the whole account: the
/// cash, and every open position at today's close.
pub proof fn target_is_an_equal_share_of_the_account<N: Number>(
    value: spec_fn(N) -> real,
    account: Account<N>,
    bars: Seq<TickerBar<N>>,
    max_holdings: usize,
    prices: Seq<real>,
    target: N,
)
    requires
        exact(value),
        distinct_bars(bars),
        target_is(account, bars, max_holdings, target),
        all_quoted(value, bars, account.holdings, prices),
    ensures
        value(target) * slots_of(max_holdings) == value(account.cash) + worth_at(
            value,
            account.holdings,
            prices,
        ),
{
    let (total, equity, slots) = choose|total: N, equity: N, slots: N|
        {
            &&& #[trigger] holdings_value_is(account.holdings, bars, total)
            &&& sum_is(account.cash, total, equity)
            &&& ratio_is(
                if max_holdings == 0 {
                    1
                } else {
                    max_holdings as u64
                },
                1,
                slots,
            )
            &&& #[trigger] quotient_is(equity, slots, target)
        };
    holdings_are_worth_their_closes(value, account.holdings, bars, prices, total);
    lemma_whole(
        value,
        if max_holdings == 0 {
            1
        } else {
            max_holdings as u64
        },
        slots,
    );
    lemma_quotient(value, equity, slots, target);
}

/// `shares` is the largest whole number of lots that `budget` pays at `price` and whose outlay
/// `cash` covers.
pub open spec fn fills_the_budget(budget: real, price: real, cash: real, shares: real) -> bool {
    &&& exists|lots: int| 0 <= lots && shares == #[trigger] in_lots(lots)
    &&& shares > 0 as real ==> price * shares <= budget && outlay(price, shares) <= cash
    &&& price * (shares + 1_000 as real) > budget || outlay(price, shares + 1_000 as real) > cash
}

/// The shares in so many lots.
pub open spec fn in_lots(lots: int) -> real {
    lots as real * (1_000 as real)
}

/// In an exact format an order takes as many whole lots as the budget pays and the cash
/// covers, and one lot more would exceed either.
pub proof fn orders_fill_their_budget<N: Number>(
    value: spec_fn(N) -> real,
    budget: N,
    price: N,
    cash: N,
    shares: N,
)
    requires
        exact(value),
        affordable_is(budget, price, cash, shares),
        value(price) > 0 as real,
        value(budget) < value(price) * (1_000 as real) * (0x1_0000_0000_0000_0000int as real),
    ensures
        fills_the_budget(value(budget), value(price), value(cash), value(shares)),
{
    let (lot, block, count, floored, first, zero, some) = choose|
        lot: N,
        block: N,
        count: N,
        floored: N,
        first: N,
        zero: N,
        some: bool,
    |
        {
            &&& ratio_is(LOT, 1, lot)
            &&& product_is(price, lot, block)
            &&& quotient_is(budget, block, count)
            &&& floor_is(count, floored)
            &&& product_is(floored, lot, first)
            &&& ratio_is(0, 1, zero)
            &&& exceeds_is(first, zero, some)
            &&& if some {
                exists|most: u64, lots: u64|
                    whole_is(floored, most) && #[trigger] most_lots(price, cash, most, lots, shares)
            } else {
                lots_are(0, shares)
            }
        };
    lemma_whole(value, LOT, lot);
    lemma_whole(value, 0, zero);
    let (b, p, k) = (value(budget), value(price), value(block));
    assert(k > 0 as real) by (nonlinear_arith)
        requires
            k == p * (1_000 as real),
            p > 0 as real,
    ;
    lemma_quotient(value, budget, block, count);
    let q = value(count);
    let w = choose|whole: int|
        value(floored) == whole as real && #[trigger] rounds_down(q, whole);
    let f = w as real;
    assert(f * k <= b && b < (f + 1 as real) * k) by (nonlinear_arith)
        requires
            q * k == b,
            f <= q,
            q < f + 1 as real,
            k > 0 as real,
    ;
    let (g, t) = (value(first), value(lot));
    assert(g > 0 as real <==> f > 0 as real) by (nonlinear_arith)
        requires
            g == f * t,
            t == 1_000 as real,
    ;
    if !some {
        lots_are_thousands(value, 0, shares);
        assert((f + 1 as real) * k <= k) by (nonlinear_arith)
            requires
                f <= 0 as real,
                k > 0 as real,
        ;
        assert(value(shares) == in_lots(0));
        let s = value(shares);
        assert(s == 0 as real) by (nonlinear_arith)
            requires
                s == 0int as real * (1_000 as real),
        ;
        assert(p * (s + 1_000 as real) == k) by (nonlinear_arith)
            requires
                s == 0 as real,
                k == p * (1_000 as real),
        ;
    } else {
        let (most, lots) = choose|most: u64, lots: u64|
            whole_is(floored, most) && #[trigger] most_lots(price, cash, most, lots, shares);
        assert(f > 0 as real);
        assert(f < 0x1_0000_0000_0000_0000int as real) by (nonlinear_arith)
            requires
                f * k <= b,
                b < p * (1_000 as real) * (0x1_0000_0000_0000_0000int as real),
                k == p * (1_000 as real),
                k > 0 as real,
        ;
        assert(counts(value(floored), most as int));
        assert(most == w);
        lots_are_thousands(value, lots, shares);
        let (s, l) = (value(shares), lots as int as real);
        assert(s == in_lots(lots as int));
        assert(p * s == l * k && p * (s + 1_000 as real) == (l + 1 as real) * k)
            by (nonlinear_arith)
            requires
                s == l * (1_000 as real),
                k == p * (1_000 as real),
        ;
        assert(l * k <= f * k) by (nonlinear_arith)
            requires
                l <= f,
                k > 0 as real,
        ;
        if lots > 0 {
            assert(covered_is(price, shares, cash, true));
            let (amount, cost) = choose|amount: N, cost: N| #[trigger]
                cost_is(price, shares, amount, cost) && reaches_is(cash, cost, true);
            buys_cost_their_outlay(value, price, shares, amount, cost);
        }
        if lots < most {
            let more: u64 = (lots + 1) as u64;
            assert(lots_too_dear(price, more, cash));
            let larger = choose|larger: N| #[trigger]
                lots_are(more, larger) && covered_is(price, larger, cash, false);
            let (amount, cost) = choose|amount: N, cost: N| #[trigger]
                cost_is(price, larger, amount, cost) && reaches_is(cash, cost, false);
            buys_cost_their_outlay(value, price, larger, amount, cost);
            lots_are_thousands(value, more, larger);
            assert(value(larger) == s + 1_000 as real);
        }
    }
}

/// What a buy of `bar` asks for: the day's low, or its open.
pub open spec fn bid<N>(value: spec_fn(N) -> real, bar: DayBar<N>, fill: Fill) -> real {
    match fill {
        Fill::LowHigh => value(bar.low),
        Fill::Open => value(bar.open),
    }
}

/// Every price of the day is at least a cent.
pub open spec fn priced<N>(value: spec_fn(N) -> real, bars: Seq<TickerBar<N>>) -> bool {
    forall|slot: int|
        0 <= slot < bars.len() ==> value((#[trigger] bars[slot]).bar.low) >= 1 as real / 100 as real
            && value(bars[slot].bar.open) >= 1 as real / 100 as real
}

/// The smaller of two numbers.
pub open spec fn lesser(a: real, b: real) -> real {
    if a <= b {
        a
    } else {
        b
    }
}

/// `event` is a buy of the bar at `slot` out of `cash` when every slot is entitled to `share`:
/// of a name that `held` does not hold and that scores above the threshold, filled at the tick
/// above the bid, in as many lots as the share and the cash allow.
pub open spec fn order_stands<N>(
    value: spec_fn(N) -> real,
    day: TradingDay<N>,
    rules: BuyRules<N>,
    share: real,
    held: Seq<Position<N>>,
    slot: int,
    event: TradeEvent<N>,
    cash: real,
) -> bool {
    &&& 0 <= slot < day.bars@.len()
    &&& event.side == Side::Buy
    &&& event.date == day.date
    &&& event.ticker@ == day.bars@[slot].ticker@
    &&& !holds(held, event.ticker@)
    &&& value(day.bars@[slot].bar.score) > value(rules.threshold)
    &&& fills_above(value(event.price), bid(value, day.bars@[slot].bar, rules.fill))
    &&& value(event.shares) > 0 as real
    &&& fills_the_budget(lesser(share, cash), value(event.price), cash, value(event.shares))
    &&& value(event.amount) == value(event.price) * value(event.shares)
    &&& value(event.cash_after) == cash - outlay(value(event.price), value(event.shares))
}

/// A lot of `bar` exceeds the share, or its outlay exceeds `cash`.
pub open spec fn too_dear<N>(
    value: spec_fn(N) -> real,
    bar: DayBar<N>,
    fill: Fill,
    share: real,
    cash: real,
) -> bool {
    exists|price: real| #[trigger]
        fills_above(price, bid(value, bar, fill)) && (price * (1_000 as real) > share || outlay(
            price,
            1_000 as real,
        ) > cash)
}

/// The cash before buy number `j` of a phase that sets out from `account`.
pub open spec fn cash_at<N>(
    value: spec_fn(N) -> real,
    account: Account<N>,
    next: Account<N>,
    j: int,
) -> real {
    if j == 0 {
        value(account.cash)
    } else {
        value(next.events[account.events.len() + j - 1].cash_after)
    }
}

/// The buys of a phase are those of the candidates at `turns`, each an order that stands, and
/// every candidate that was passed over was too dear or found no slot open any more.
spec fn bought_in_turn<N>(
    value: spec_fn(N) -> real,
    day: TradingDay<N>,
    rules: BuyRules<N>,
    share: real,
    account: Account<N>,
    list: Seq<Ranked>,
    count: nat,
    next: Account<N>,
    turns: Seq<int>,
) -> bool {
    let (logged, held) = (account.events.len(), account.holdings.len());
    &&& next.events.len() == logged + turns.len()
    &&& next.holdings.len() == held + turns.len()
    &&& next.trades == account.trades
    &&& forall|i: int| 0 <= i < logged ==> #[trigger] next.events[i] == account.events[i]
    &&& forall|i: int| 0 <= i < held ==> #[trigger] next.holdings[i] == account.holdings[i]
    &&& forall|j: int|
        0 <= j < turns.len() ==> {
            &&& 0 <= #[trigger] turns[j] < count
            &&& order_stands(
                value,
                day,
                rules,
                share,
                account.holdings,
                list[turns[j]].slot as int,
                next.events[logged + j],
                cash_at(value, account, next, j),
            )
            &&& next.holdings[held + j].ticker@ == next.events[logged + j].ticker@
        }
    &&& forall|i: int, j: int| 0 <= i < j < turns.len() ==> #[trigger] turns[i] < #[trigger] turns[j]
    &&& value(next.cash) == cash_at(value, account, next, turns.len() as int)
    &&& value(next.cash) <= value(account.cash)
    &&& forall|c: int|
        0 <= c < count && !turns.contains(c) ==> {
            ||| too_dear(
                value,
                day.bars@[(#[trigger] list[c]).slot as int].bar,
                rules.fill,
                share,
                value(next.cash),
            )
            ||| next.holdings.len() >= rules.max_holdings && (forall|j: int|
                0 <= j < turns.len() ==> #[trigger] turns[j] < c)
        }
}

proof fn lemma_price_is_positive(price: real, limit: real)
    requires
        fills_above(price, limit),
        limit >= 1 as real / 100 as real,
    ensures
        price * (1_000 as real) > 9 as real,
{
}

#[verifier::rlimit(30)]
proof fn lemma_buys_in_turn<N: Number>(
    value: spec_fn(N) -> real,
    account: Account<N>,
    list: Seq<Ranked>,
    day: TradingDay<N>,
    index: usize,
    rules: BuyRules<N>,
    target: N,
    count: nat,
    next: Account<N>,
) -> (turns: Seq<int>)
    requires
        exact(value),
        priced(value, day.bars@),
        value(target) < 0x1_0000_0000_0000_0000int as real,
        candidates_are(day.bars@, account.holdings, rules.threshold, list),
        count <= list.len(),
        buys_upto(account, list, day, index, rules, target, count, next),
    ensures
        bought_in_turn(
            value,
            day,
            rules,
            value(target),
            account,
            list,
            count,
            next,
            turns,
        ),
    decreases count,
{
    if count == 0 {
        Seq::empty()
    } else {
        let before = (count - 1) as nat;
        let slot = list[count - 1].slot as int;
        let entry = day.bars@[slot];
        let earlier = choose|earlier: Account<N>|
            {
                &&& buys_upto(account, list, day, index, rules, target, before, earlier)
                &&& #[trigger] buy_step(earlier, entry, day.date, index, rules, target, next)
            };
        let turns = lemma_buys_in_turn(
            value,
            account,
            list,
            day,
            index,
            rules,
            target,
            before,
            earlier,
        );
        let share = value(target);
        let picks = choose|picks: Seq<bool>| #[trigger]
            picks_are(day.bars@, account.holdings, rules.threshold, picks) && strongest_first(
                day.bars@,
                picks,
                list,
            );
        assert(stands_for(day.bars@, list[count - 1]) && picks[slot]);
        assert(pick_is(day.bars@[slot], account.holdings, rules.threshold, picks[slot]));
        assert(!turns.contains(count - 1)) by {
            if turns.contains(count - 1) {
                let j = choose|j: int| 0 <= j < turns.len() && turns[j] == count - 1;
                assert(turns[j] < before);
            }
        }
        if earlier.holdings.len() >= rules.max_holdings {
            assert(next == earlier);
            assert forall|c: int| 0 <= c < count && !turns.contains(c) implies {
                ||| too_dear(
                    value,
                    day.bars@[(#[trigger] list[c]).slot as int].bar,
                    rules.fill,
                    share,
                    value(next.cash),
                )
                ||| next.holdings.len() >= rules.max_holdings && (forall|j: int|
                    0 <= j < turns.len() ==> #[trigger] turns[j] < c)
            } by {
            }
            turns
        } else {
            let (price, budget, shares, zero, none) = choose|
                price: N,
                budget: N,
                shares: N,
                zero: N,
                none: bool,
            |
                {
                    &&& buy_price_is(entry.bar, rules.fill, price)
                    &&& smaller_is(target, earlier.cash, budget)
                    &&& #[trigger] affordable_is(budget, price, earlier.cash, shares)
                    &&& ratio_is(0, 1, zero)
                    &&& #[trigger] reaches_is(zero, shares, none)
                    &&& if none {
                        next == earlier
                    } else {
                        bought(earlier, entry, day.date, index, price, shares, next)
                    }
                };
            lemma_whole(value, 0, zero);
            buys_fill_above_the_bar(value, entry.bar, rules.fill, price);
            lemma_price_is_positive(value(price), bid(value, entry.bar, rules.fill));
            let (p, c, b, s) = (
                value(price),
                value(earlier.cash),
                value(budget),
                value(shares),
            );
            assert(b == lesser(share, c));
            assert(b < p * (1_000 as real) * (0x1_0000_0000_0000_0000int as real))
                by (nonlinear_arith)
                requires
                    b < 0x1_0000_0000_0000_0000int as real,
                    p * (1_000 as real) > 9 as real,
            ;
            orders_fill_their_budget(value, budget, price, earlier.cash, shares);
            if none {
                lemma_passed(value, day, rules, share, account, list, count, next, turns, p, s);
                turns
            } else {
                let (amount, cost) = choose|amount: N, cost: N|
                    {
                        &&& #[trigger] cost_is(price, shares, amount, cost)
                        &&& difference_is(earlier.cash, cost, next.cash)
                        &&& next.holdings.last().ticker == entry.ticker
                        &&& next.events.last().amount == amount
                        &&& next.holdings.len() == earlier.holdings.len() + 1
                        &&& next.events.len() == earlier.events.len() + 1
                    };
                buys_cost_their_outlay(value, price, shares, amount, cost);
                assert(p * s > 0 as real) by (nonlinear_arith)
                    requires
                        p > 0 as real,
                        s > 0 as real,
                ;
                assert(commission_on(p * s) >= 20 as real);
                lemma_ordered(
                    value,
                    day,
                    rules,
                    share,
                    account,
                    list,
                    count,
                    earlier,
                    next,
                    turns,
                );
                turns.push(count - 1)
            }
        }
    }
}

proof fn lemma_passed<N: Number>(
    value: spec_fn(N) -> real,
    day: TradingDay<N>,
    rules: BuyRules<N>,
    share: real,
    account: Account<N>,
    list: Seq<Ranked>,
    count: nat,
    next: Account<N>,
    turns: Seq<int>,
    price: real,
    shares: real,
)
    requires
        count > 0,
        bought_in_turn(
            value,
            day,
            rules,
            share,
            account,
            list,
            (count - 1) as nat,
            next,
            turns,
        ),
        fills_above(price, bid(value, day.bars@[list[count - 1].slot as int].bar, rules.fill)),
        fills_the_budget(lesser(share, value(next.cash)), price, value(next.cash), shares),
        shares <= 0 as real,
        price > 0 as real,
    ensures
        bought_in_turn(value, day, rules, share, account, list, count, next, turns),
{
    let slot = list[count - 1].slot as int;
    let cash = value(next.cash);
    let lots = choose|lots: int| 0 <= lots && shares == #[trigger] in_lots(lots);
    assert(shares == 0 as real) by (nonlinear_arith)
        requires
            shares == lots as real * (1_000 as real),
            lots >= 0,
            shares <= 0 as real,
    ;
    let block = price * (1_000 as real);
    assert(price * (shares + 1_000 as real) == block);
    assert(outlay(price, shares + 1_000 as real) == outlay(price, 1_000 as real));
    assert(commission_on(block) >= 20 as real);
    assert(block > share || outlay(price, 1_000 as real) > cash);
    assert(too_dear(value, day.bars@[slot].bar, rules.fill, share, cash));
    assert forall|c: int| 0 <= c < count && !turns.contains(c) implies {
        ||| too_dear(
            value,
            day.bars@[(#[trigger] list[c]).slot as int].bar,
            rules.fill,
            share,
            value(next.cash),
        )
        ||| next.holdings.len() >= rules.max_holdings && (forall|j: int|
            0 <= j < turns.len() ==> #[trigger] turns[j] < c)
    } by {
    }
}

proof fn lemma_dearer<N: Number>(
    value: spec_fn(N) -> real,
    bar: DayBar<N>,
    fill: Fill,
    share: real,
    more: real,
    less: real,
)
    requires
        too_dear(value, bar, fill, share, more),
        less <= more,
    ensures
        too_dear(value, bar, fill, share, less),
{
    let price = choose|price: real| #[trigger]
        fills_above(price, bid(value, bar, fill)) && (price * (1_000 as real) > share || outlay(
            price,
            1_000 as real,
        ) > more);
    assert(fills_above(price, bid(value, bar, fill)));
}

proof fn lemma_ordered<N: Number>(
    value: spec_fn(N) -> real,
    day: TradingDay<N>,
    rules: BuyRules<N>,
    share: real,
    account: Account<N>,
    list: Seq<Ranked>,
    count: nat,
    earlier: Account<N>,
    next: Account<N>,
    turns: Seq<int>,
)
    requires
        count > 0,
        bought_in_turn(
            value,
            day,
            rules,
            share,
            account,
            list,
            (count - 1) as nat,
            earlier,
            turns,
        ),
        earlier.holdings.len() < rules.max_holdings,
        !turns.contains(count - 1),
        next.trades == earlier.trades,
        next.events == earlier.events.push(next.events.last()),
        next.events.len() == earlier.events.len() + 1,
        next.holdings == earlier.holdings.push(next.holdings.last()),
        next.holdings.len() == earlier.holdings.len() + 1,
        next.holdings.last().ticker@ == next.events.last().ticker@,
        next.events.last().cash_after == next.cash,
        value(next.cash) <= value(earlier.cash),
        order_stands(
            value,
            day,
            rules,
            share,
            account.holdings,
            list[count - 1].slot as int,
            next.events.last(),
            value(earlier.cash),
        ),
    ensures
        bought_in_turn(
            value,
            day,
            rules,
            share,
            account,
            list,
            count,
            next,
            turns.push(count - 1),
        ),
{
    let longer = turns.push(count - 1);
    let (logged, held) = (account.events.len(), account.holdings.len());
    assert forall|j: int| 0 <= j < longer.len() implies {
        &&& 0 <= #[trigger] longer[j] < count
        &&& order_stands(
            value,
            day,
            rules,
            share,
            account.holdings,
            list[longer[j]].slot as int,
            next.events[logged + j],
            cash_at(value, account, next, j),
        )
        &&& next.holdings[held + j].ticker@ == next.events[logged + j].ticker@
    } by {
        if j < turns.len() {
            assert(longer[j] == turns[j]);
            assert(next.events[logged + j] == earlier.events[logged + j]);
            assert(next.holdings[held + j] == earlier.holdings[held + j]);
            assert(cash_at(value, account, next, j) == cash_at(value, account, earlier, j));
        } else {
            assert(cash_at(value, account, next, j) == cash_at(value, account, earlier, j));
        }
    }
    assert forall|i: int, j: int| 0 <= i < j < longer.len() implies #[trigger] longer[i]
        < #[trigger] longer[j] by {
        assert(longer[i] == turns[i]);
        if j < turns.len() {
            assert(longer[j] == turns[j]);
        }
    }
    assert forall|c: int| 0 <= c < count && !longer.contains(c) implies {
        ||| too_dear(
            value,
            day.bars@[(#[trigger] list[c]).slot as int].bar,
            rules.fill,
            share,
            value(next.cash),
        )
        ||| next.holdings.len() >= rules.max_holdings && (forall|j: int|
            0 <= j < longer.len() ==> #[trigger] longer[j] < c)
    } by {
        assert(!turns.contains(c)) by {
            if turns.contains(c) {
                let j = choose|j: int| 0 <= j < turns.len() && turns[j] == c;
                assert(longer[j] == c);
            }
        }
        assert(c != count - 1) by {
            assert(longer[turns.len() as int] == count - 1);
        }
        lemma_dearer(
            value,
            day.bars@[list[c].slot as int].bar,
            rules.fill,
            share,
            value(earlier.cash),
            value(next.cash),
        );
    }
}

/// What an equal share of the account is worth at these prices.
pub open spec fn share_of<N>(
    value: spec_fn(N) -> real,
    account: Account<N>,
    max_holdings: usize,
    prices: Seq<real>,
) -> real {
    (value(account.cash) + worth_at(value, account.holdings, prices)) / slots_of(max_holdings)
}

proof fn lemma_phase<N: Number>(
    value: spec_fn(N) -> real,
    account: Account<N>,
    day: TradingDay<N>,
    index: usize,
    rules: BuyRules<N>,
    prices: Seq<real>,
    next: Account<N>,
) -> (found: (Seq<Ranked>, Seq<int>))
    requires
        exact(value),
        day.wf(),
        priced(value, day.bars@),
        all_quoted(value, day.bars@, account.holdings, prices),
        share_of(value, account, rules.max_holdings, prices)
            < 0x1_0000_0000_0000_0000int as real,
        buy_phase_is(account, day, index, rules, next),
    ensures
        candidates_are(day.bars@, account.holdings, rules.threshold, found.0),
        bought_in_turn(
            value,
            day,
            rules,
            share_of(value, account, rules.max_holdings, prices),
            account,
            found.0,
            found.0.len(),
            next,
            found.1,
        ),
{
    let (target, list) = choose|target: N, list: Seq<Ranked>|
        {
            &&& target_is(account, day.bars@, rules.max_holdings, target)
            &&& #[trigger] candidates_are(day.bars@, account.holdings, rules.threshold, list)
            &&& #[trigger] buys_upto(account, list, day, index, rules, target, list.len(), next)
        };
    target_is_an_equal_share_of_the_account(
        value,
        account,
        day.bars@,
        rules.max_holdings,
        prices,
        target,
    );
    let (t, n, a) = (
        value(target),
        slots_of(rules.max_holdings),
        value(account.cash) + worth_at(value, account.holdings, prices),
    );
    assert(t == a / n) by (nonlinear_arith)
        requires
            t * n == a,
            n > 0 as real,
    ;
    let turns = lemma_buys_in_turn(
        value,
        account,
        list,
        day,
        index,
        rules,
        target,
        list.len(),
        next,
    );
    (list, turns)
}

/// In an exact format every buy of a phase stands for an equal share of the account: of the
/// cash and every open position at today's close, whatever part of it is in positions. It is
/// of a name that is not held and that scores above the threshold, fills at the tick above
/// the bid, and takes as many lots as the share and the cash that is left allow.
pub proof fn buys_take_an_equal_share<N: Number>(
    value: spec_fn(N) -> real,
    account: Account<N>,
    day: TradingDay<N>,
    index: usize,
    rules: BuyRules<N>,
    prices: Seq<real>,
    next: Account<N>,
    j: int,
)
    requires
        exact(value),
        day.wf(),
        priced(value, day.bars@),
        all_quoted(value, day.bars@, account.holdings, prices),
        share_of(value, account, rules.max_holdings, prices)
            < 0x1_0000_0000_0000_0000int as real,
        buy_phase_is(account, day, index, rules, next),
        0 <= j < next.events.len() - account.events.len(),
    ensures
        exists|slot: int| #[trigger]
            order_stands(
                value,
                day,
                rules,
                share_of(value, account, rules.max_holdings, prices),
                account.holdings,
                slot,
                next.events[account.events.len() + j],
                cash_at(value, account, next, j),
            ),
{
    let (list, turns) = lemma_phase(value, account, day, index, rules, prices, next);
    assert(0 <= turns[j] < list.len());
    assert(order_stands(
        value,
        day,
        rules,
        share_of(value, account, rules.max_holdings, prices),
        account.holdings,
        list[turns[j]].slot as int,
        next.events[account.events.len() + j],
        cash_at(value, account, next, j),
    ));
}

/// In an exact format each buy of a phase opens one position under its own name, and a phase
/// changes nothing else but the cash, which is what the last buy left.
pub proof fn buys_open_one_position_each<N: Number>(
    value: spec_fn(N) -> real,
    account: Account<N>,
    day: TradingDay<N>,
    index: usize,
    rules: BuyRules<N>,
    prices: Seq<real>,
    next: Account<N>,
)
    requires
        exact(value),
        day.wf(),
        priced(value, day.bars@),
        all_quoted(value, day.bars@, account.holdings, prices),
        share_of(value, account, rules.max_holdings, prices)
            < 0x1_0000_0000_0000_0000int as real,
        buy_phase_is(account, day, index, rules, next),
    ensures
        next.trades == account.trades,
        next.events.len() - account.events.len() == next.holdings.len() - account.holdings.len()
            >= 0,
        forall|i: int|
            0 <= i < account.events.len() ==> #[trigger] next.events[i] == account.events[i],
        forall|i: int|
            0 <= i < account.holdings.len() ==> #[trigger] next.holdings[i] == account.holdings[i],
        forall|i: int|
            account.holdings.len() <= i < next.holdings.len() ==> (
            #[trigger] next.holdings[i]).ticker@ == next.events[i - account.holdings.len()
                + account.events.len()].ticker@,
        value(next.cash) == cash_at(
            value,
            account,
            next,
            next.events.len() - account.events.len(),
        ),
{
    let (list, turns) = lemma_phase(value, account, day, index, rules, prices, next);
    let held = account.holdings.len() as int;
    assert forall|i: int| held <= i < next.holdings.len() implies (
    #[trigger] next.holdings[i]).ticker@ == next.events[i - held + account.events.len()].ticker@ by {
        assert(0 <= turns[i - held] < list.len());
    }
}

proof fn lemma_list_descends<N: Number>(
    value: spec_fn(N) -> real,
    bars: Seq<TickerBar<N>>,
    holdings: Seq<Position<N>>,
    threshold: N,
    list: Seq<Ranked>,
    a: int,
    b: int,
)
    requires
        ranks_by(value),
        candidates_are(bars, holdings, threshold, list),
        0 <= a <= b < list.len(),
    ensures
        value(bars[list[a].slot as int].bar.score) >= value(bars[list[b].slot as int].bar.score),
{
    let picks = choose|picks: Seq<bool>| #[trigger]
        picks_are(bars, holdings, threshold, picks) && strongest_first(bars, picks, list);
    assert(stands_for(bars, list[a]));
    assert(stands_for(bars, list[b]));
    let upper = choose|rank: i64|
        rank_is(bars[list[a].slot as int].bar.score, rank) && list[a].key == -1 - rank;
    let lower = choose|rank: i64|
        rank_is(bars[list[b].slot as int].bar.score, rank) && list[b].key == -1 - rank;
    if a < b {
        assert(in_order(list[a], list[b]));
    }
    assert(upper >= lower);
}

proof fn lemma_same_slot<N>(bars: Seq<TickerBar<N>>, a: int, b: int)
    requires
        distinct_bars(bars),
        0 <= a < bars.len(),
        0 <= b < bars.len(),
        bars[a].ticker@ == bars[b].ticker@,
    ensures
        a == b,
{
    if a < b {
        assert(bars[a].ticker@ != bars[b].ticker@);
    } else if b < a {
        assert(bars[b].ticker@ != bars[a].ticker@);
    }
}

/// In an exact format that ranks by value, the buys of a phase go from the highest score to
/// the lowest.
pub proof fn highest_scores_are_bought_first<N: Number>(
    value: spec_fn(N) -> real,
    account: Account<N>,
    day: TradingDay<N>,
    index: usize,
    rules: BuyRules<N>,
    prices: Seq<real>,
    next: Account<N>,
    i: int,
    j: int,
    first: int,
    second: int,
)
    requires
        exact(value),
        ranks_by(value),
        day.wf(),
        priced(value, day.bars@),
        all_quoted(value, day.bars@, account.holdings, prices),
        share_of(value, account, rules.max_holdings, prices)
            < 0x1_0000_0000_0000_0000int as real,
        buy_phase_is(account, day, index, rules, next),
        account.events.len() <= i < j < next.events.len(),
        0 <= first < day.bars@.len(),
        0 <= second < day.bars@.len(),
        next.events[i].ticker@ == day.bars@[first].ticker@,
        next.events[j].ticker@ == day.bars@[second].ticker@,
    ensures
        value(day.bars@[first].bar.score) >= value(day.bars@[second].bar.score),
{
    let bars = day.bars@;
    let (list, turns) = lemma_phase(value, account, day, index, rules, prices, next);
    let logged = account.events.len() as int;
    let (a, b) = (turns[i - logged], turns[j - logged]);
    assert(a < b);
    lemma_same_slot(bars, first, list[a].slot as int);
    lemma_same_slot(bars, second, list[b].slot as int);
    lemma_list_descends(value, bars, account.holdings, rules.threshold, list, a, b);
}

/// In an exact format that ranks by value, a name that is not held and scores above the
/// threshold is bought, unless a lot of it exceeds an equal share or the cash that is left,
/// or the slots went to names that score no lower.
pub proof fn no_affordable_stronger_name_is_passed_over<N: Number>(
    value: spec_fn(N) -> real,
    account: Account<N>,
    day: TradingDay<N>,
    index: usize,
    rules: BuyRules<N>,
    prices: Seq<real>,
    next: Account<N>,
    slot: int,
)
    requires
        exact(value),
        ranks_by(value),
        day.wf(),
        priced(value, day.bars@),
        all_quoted(value, day.bars@, account.holdings, prices),
        share_of(value, account, rules.max_holdings, prices)
            < 0x1_0000_0000_0000_0000int as real,
        buy_phase_is(account, day, index, rules, next),
        0 <= slot < day.bars@.len(),
        !holds(account.holdings, day.bars@[slot].ticker@),
        value(day.bars@[slot].bar.score) > value(rules.threshold),
    ensures
        ({
            ||| holds(next.holdings, day.bars@[slot].ticker@)
            ||| too_dear(
                value,
                day.bars@[slot].bar,
                rules.fill,
                share_of(value, account, rules.max_holdings, prices),
                value(next.cash),
            )
            ||| next.holdings.len() >= rules.max_holdings && (forall|j: int, other: int|
                account.events.len() <= j < next.events.len() && 0 <= other < day.bars@.len()
                    && (#[trigger] next.events[j]).ticker@ == (
                #[trigger] day.bars@[other]).ticker@ ==> value(day.bars@[other].bar.score)
                    >= value(day.bars@[slot].bar.score))
        }),
{
    let bars = day.bars@;
    let (list, turns) = lemma_phase(value, account, day, index, rules, prices, next);
    let (logged, held) = (account.events.len() as int, account.holdings.len() as int);
    let picks = choose|picks: Seq<bool>| #[trigger]
        picks_are(bars, account.holdings, rules.threshold, picks) && strongest_first(
            bars,
            picks,
            list,
        );
    assert(pick_is(bars[slot], account.holdings, rules.threshold, picks[slot]));
    assert(lists_slot(list, slot));
    let c = choose|c: int| 0 <= c < list.len() && (#[trigger] list[c]).slot == slot;
    if turns.contains(c) {
        let j = choose|j: int| 0 <= j < turns.len() && turns[j] == c;
        assert(next.holdings[held + j].ticker@ == next.events[logged + j].ticker@);
    } else if next.holdings.len() >= rules.max_holdings && (forall|j: int|
        0 <= j < turns.len() ==> #[trigger] turns[j] < c) {
        assert forall|j: int, other: int|
            logged <= j < next.events.len() && 0 <= other < bars.len() && (
            #[trigger] next.events[j]).ticker@ == (#[trigger] bars[other]).ticker@ implies value(
            bars[other].bar.score,
        ) >= value(bars[slot].bar.score) by {
            let a = turns[j - logged];
            assert(0 <= a < c);
            assert(next.events[logged + (j - logged)] == next.events[j]);
            lemma_same_slot(bars, other, list[a].slot as int);
            lemma_list_descends(value, bars, account.holdings, rules.threshold, list, a, c);
        }
    }
}

/// In an exact format what an account is worth after a day is its cash and every position at
/// its mark, and the mark of a position that traded that day is its close.
pub proof fn equity_counts_every_position_at_its_mark<N: Number>(
    value: spec_fn(N) -> real,
    account: Account<N>,
    prices: Seq<real>,
    equity: N,
)
    requires
        exact(value),
        equity_is(account, equity),
        prices.len() == account.holdings.len(),
        forall|i: int|
            0 <= i < prices.len() ==> #[trigger] prices[i] == value(
                account.holdings[i].holding.mark,
            ),
    ensures
        value(equity) == value(account.cash) + worth_at(value, account.holdings, prices),
{
    let none = Seq::<TickerBar<N>>::empty();
    let total = choose|total: N| #[trigger]
        holdings_value_is(account.holdings, none, total) && sum_is(account.cash, total, equity);
    assert forall|i: int| 0 <= i < prices.len() implies quotes(
        value,
        none,
        account.holdings[i],
        #[trigger] prices[i],
    ) by {
    }
    holdings_are_worth_their_closes(value, account.holdings, none, prices, total);
}

} // verus!
