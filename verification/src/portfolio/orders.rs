//! Booking orders: what a sale realizes, what a buy takes, and which names are bought.
use vstd::prelude::*;

use crate::number::Number;
#[allow(unused_imports)]
use crate::number::{
    difference_is, empty_sum_is, exceeds_is, floor_is, product_is, quotient_is, rank_is, ratio_is,
    reaches_is, smaller_is, sum_is, total_is, whole_is,
};
use crate::portfolio::pricing::{buy_price, commission, LOT, SELL_TAX_PERMILLE};
#[allow(unused_imports)]
use crate::portfolio::pricing::{buy_price_is, commission_is};
use crate::portfolio::ranking::{sort_ranked, Ranked};
#[allow(unused_imports)]
use crate::portfolio::ranking::{distinct_slots, lemma_reordered, lists_slot, sorted};
use crate::portfolio::types::{
    find_bar, is_held, ExitReason, Fill, Holding, Ledger, Position, Side, TickerBar, Trade,
    TradeEvent, TradingDay,
};
#[allow(unused_imports)]
use crate::portfolio::types::{bar_of, distinct_bars, holds, Account};

verus! {

/// The figures of one sale.
pub struct SaleFigures<N> {
    pub amount: N,
    pub proceeds: N,
    pub cash_after: N,
    pub pnl: N,
    pub return_pct: N,
}

/// `sale` holds the figures of selling a holding at `price` into `cash`: proceeds net of
/// commission and tax, the new balance, and the result against the cost.
pub open spec fn sale_is<N: Number>(
    cash: N,
    holding: Holding<N>,
    price: N,
    sale: SaleFigures<N>,
) -> bool {
    exists|fee: N, net: N, rate: N, tax: N|
        {
            &&& product_is(price, holding.shares, sale.amount)
            &&& commission_is(sale.amount, fee)
            &&& difference_is(sale.amount, fee, net)
            &&& ratio_is(SELL_TAX_PERMILLE, 1_000, rate)
            &&& product_is(sale.amount, rate, tax)
            &&& difference_is(net, tax, sale.proceeds)
            &&& sum_is(cash, sale.proceeds, sale.cash_after)
            &&& difference_is(sale.proceeds, holding.cost, sale.pnl)
            &&& quotient_is(sale.pnl, holding.cost, sale.return_pct)
        }
}

/// The trade that closing `position` at `price` logs.
pub open spec fn closed_trade<N>(
    position: Position<N>,
    date: i32,
    price: N,
    reason: ExitReason,
    sale: SaleFigures<N>,
) -> Trade<N> {
    Trade {
        ticker: position.ticker,
        entry_date: position.holding.entry_date,
        exit_date: date,
        entry_price: position.holding.entry_price,
        exit_price: price,
        shares: position.holding.shares,
        cost: position.holding.cost,
        proceeds: sale.proceeds,
        pnl: sale.pnl,
        return_pct: sale.return_pct,
        exit_reason: reason,
    }
}

/// The event that closing `position` at `price` logs.
pub open spec fn sell_event<N>(
    position: Position<N>,
    date: i32,
    price: N,
    reason: ExitReason,
    sale: SaleFigures<N>,
) -> TradeEvent<N> {
    TradeEvent {
        date,
        ticker: position.ticker,
        side: Side::Sell,
        reason: Some(reason),
        price,
        shares: position.holding.shares,
        amount: sale.amount,
        cash_after: sale.cash_after,
    }
}

/// `next` is the account after `position` was sold at `price`, `remaining` being what is
/// still held: the balance takes the proceeds, and the event and the closed trade are
/// logged.
pub open spec fn booked<N: Number>(
    account: Account<N>,
    remaining: Seq<Position<N>>,
    position: Position<N>,
    date: i32,
    price: N,
    reason: ExitReason,
    next: Account<N>,
) -> bool {
    exists|sale: SaleFigures<N>|
        {
            &&& #[trigger] sale_is(account.cash, position.holding, price, sale)
            &&& next.cash == sale.cash_after
            &&& next.holdings == remaining
            &&& next.trades == account.trades.push(
                closed_trade(position, date, price, reason, sale),
            )
            &&& next.events == account.events.push(
                sell_event(position, date, price, reason, sale),
            )
        }
}

/// Book one sell of a position that has left the holdings: realize proceeds net of
/// commission and tax, log the event and the closed trade.
pub fn book_sale<N: Number>(
    ledger: &mut Ledger<N>,
    date: i32,
    position: &Position<N>,
    price: N,
    reason: ExitReason,
)
    ensures
        booked(old(ledger)@, old(ledger)@.holdings, *position, date, price, reason, final(ledger)@),
{
    let holding = position.holding;
    let amount = price.times(holding.shares);
    let fee = commission(amount);
    let net = amount.minus(fee);
    let rate = N::from_ratio(SELL_TAX_PERMILLE, 1_000);
    let tax = amount.times(rate);
    let proceeds = net.minus(tax);
    let cash_after = ledger.cash.plus(proceeds);
    let pnl = proceeds.minus(holding.cost);
    let return_pct = pnl.over(holding.cost);
    let ghost sale = SaleFigures { amount, proceeds, cash_after, pnl, return_pct };
    proof {
        assert(product_is(price, holding.shares, sale.amount));
        assert(commission_is(sale.amount, fee));
        assert(difference_is(sale.amount, fee, net));
        assert(ratio_is(SELL_TAX_PERMILLE, 1_000, rate));
        assert(product_is(sale.amount, rate, tax));
        assert(difference_is(net, tax, sale.proceeds));
        assert(sum_is(ledger.cash, sale.proceeds, sale.cash_after));
        assert(difference_is(sale.proceeds, holding.cost, sale.pnl));
        assert(quotient_is(sale.pnl, holding.cost, sale.return_pct));
        assert(sale_is(ledger.cash, holding, price, sale));
    }
    ledger.cash = cash_after;
    ledger.events.push(
        TradeEvent {
            date,
            ticker: position.ticker.clone(),
            side: Side::Sell,
            reason: Some(reason),
            price,
            shares: holding.shares,
            amount,
            cash_after,
        },
    );
    ledger.trades.push(
        Trade {
            ticker: position.ticker.clone(),
            entry_date: holding.entry_date,
            exit_date: date,
            entry_price: holding.entry_price,
            exit_price: price,
            shares: holding.shares,
            cost: holding.cost,
            proceeds,
            pnl,
            return_pct,
            exit_reason: reason,
        },
    );
    proof {
        assert(sale_is(old(ledger)@.cash, position.holding, price, sale));
        assert(ledger@.events =~= old(ledger)@.events.push(
            sell_event(*position, date, price, reason, sale),
        ));
        assert(ledger@.trades =~= old(ledger)@.trades.push(
            closed_trade(*position, date, price, reason, sale),
        ));
    }
}

/// What a buy phase goes by.
#[derive(Clone, Copy)]
pub struct BuyRules<N> {
    /// Score that a stock has to exceed to be bought.
    pub threshold: N,
    /// Which prices fills happen at.
    pub fill: Fill,
    /// Most stocks held at once; each new buy targets `equity / max_holdings`.
    pub max_holdings: usize,
}

/// Whether a bar makes its ticker a candidate is `pick`: the ticker is not held, and its
/// score exceeds the threshold.
pub open spec fn pick_is<N: Number>(
    entry: TickerBar<N>,
    holdings: Seq<Position<N>>,
    threshold: N,
    pick: bool,
) -> bool {
    if holds(holdings, entry.ticker@) {
        !pick
    } else {
        exceeds_is(entry.bar.score, threshold, pick)
    }
}

/// `picks` says of each bar whether its ticker is a candidate.
pub open spec fn picks_are<N: Number>(
    bars: Seq<TickerBar<N>>,
    holdings: Seq<Position<N>>,
    threshold: N,
    picks: Seq<bool>,
) -> bool {
    &&& picks.len() == bars.len()
    &&& forall|i: int|
        0 <= i < bars.len() ==> pick_is(#[trigger] bars[i], holdings, threshold, picks[i])
}

/// `entry` stands for the bar in its slot, its key the smaller the higher the score ranks.
pub open spec fn stands_for<N: Number>(bars: Seq<TickerBar<N>>, entry: Ranked) -> bool {
    &&& entry.slot < bars.len()
    &&& entry.name@ == bars[entry.slot as int].ticker@
    &&& exists|rank: i64|
        rank_is(bars[entry.slot as int].bar.score, rank) && entry.key == -1 - rank
}

/// `list` holds the picked bars, each once, strongest first, names breaking ties.
pub open spec fn strongest_first<N: Number>(
    bars: Seq<TickerBar<N>>,
    picks: Seq<bool>,
    list: Seq<Ranked>,
) -> bool {
    &&& sorted(list)
    &&& distinct_slots(list)
    &&& forall|k: int|
        0 <= k < list.len() ==> stands_for(bars, #[trigger] list[k]) && picks[list[k].slot as int]
    &&& forall|slot: int| 0 <= slot < bars.len() && picks[slot] ==> #[trigger] lists_slot(list, slot)
}

/// `list` holds the above-threshold names that are not held, strongest first.
pub open spec fn candidates_are<N: Number>(
    bars: Seq<TickerBar<N>>,
    holdings: Seq<Position<N>>,
    threshold: N,
    list: Seq<Ranked>,
) -> bool {
    exists|picks: Seq<bool>| #[trigger]
        picks_are(bars, holdings, threshold, picks) && strongest_first(bars, picks, list)
}

/// The above-threshold names not already held, strongest first, ticker breaking ties.
pub fn candidates<N: Number>(
    bars: &Vec<TickerBar<N>>,
    holdings: &Vec<Position<N>>,
    threshold: N,
) -> (list: Vec<Ranked>)
    ensures
        candidates_are(bars@, holdings@, threshold, list@),
{
    let mut found: Vec<Ranked> = Vec::new();
    let ghost mut picks: Seq<bool> = Seq::empty();
    let mut slot: usize = 0;
    while slot < bars.len()
        invariant
            slot <= bars.len(),
            picks.len() == slot,
            forall|i: int|
                0 <= i < slot ==> pick_is(#[trigger] bars@[i], holdings@, threshold, picks[i]),
            distinct_slots(found@),
            forall|k: int|
                0 <= k < found.len() ==> stands_for(bars@, #[trigger] found@[k]) && found@[k].slot
                    < slot && picks[found@[k].slot as int],
            forall|i: int| 0 <= i < slot && picks[i] ==> #[trigger] lists_slot(found@, i),
        decreases bars.len() - slot,
    {
        let ghost before = found@;
        let entry = &bars[slot];
        let pick = !is_held(holdings, &entry.ticker) && entry.bar.score.exceeds(threshold);
        if pick {
            let rank = entry.bar.score.rank();
            found.push(Ranked { key: -1 - rank, name: entry.ticker.clone(), slot });
        }
        proof {
            picks = picks.push(pick);
            assert(forall|k: int| 0 <= k < before.len() ==> #[trigger] found@[k] == before[k]);
            if pick {
                assert(found@[found.len() - 1].slot == slot);
            }
            assert forall|i: int| 0 <= i < slot + 1 && picks[i] implies #[trigger] lists_slot(
                found@,
                i,
            ) by {
                if i < slot {
                    assert(lists_slot(before, i));
                    let k = choose|k: int|
                        0 <= k < before.len() && (#[trigger] before[k]).slot == i;
                    assert(found@[k].slot == i);
                } else {
                    assert(found@[found.len() - 1].slot == i);
                }
            }
        }
        slot = slot + 1;
    }
    let ghost unordered = found@;
    let list = sort_ranked(found);
    proof {
        lemma_reordered(unordered, list@);
        assert(picks_are(bars@, holdings@, threshold, picks));
        assert forall|k: int| 0 <= k < list.len() implies stands_for(bars@, #[trigger] list@[k])
            && picks[list@[k].slot as int] by {
            assert(unordered.contains(list@[k]));
        }
        assert forall|i: int| 0 <= i < bars.len() && picks[i] implies #[trigger] lists_slot(
            list@,
            i,
        ) by {
            assert(lists_slot(unordered, i));
            let k = choose|k: int| 0 <= k < unordered.len() && (#[trigger] unordered[k]).slot == i;
            assert(list@.contains(unordered[k]));
            let l = choose|l: int| 0 <= l < list.len() && list@[l] == unordered[k];
            assert(list@[l].slot == i);
        }
        assert(strongest_first(bars@, picks, list@));
    }
    list
}

/// What a share of `position` is worth on a day with `bars`: its close there, or its last
/// mark on a day without a bar.
pub open spec fn mark_on<N>(position: Position<N>, bars: Seq<TickerBar<N>>) -> N {
    match bar_of(bars, position.ticker@) {
        Some(bar) => bar.close,
        None => position.holding.mark,
    }
}

/// `value` is the sum of what each holding is worth on a day with `bars`.
pub open spec fn holdings_value_is<N: Number>(
    holdings: Seq<Position<N>>,
    bars: Seq<TickerBar<N>>,
    value: N,
) -> bool {
    exists|start: N, values: Seq<N>|
        {
            &&& empty_sum_is(start)
            &&& values.len() == holdings.len()
            &&& forall|i: int|
                0 <= i < values.len() ==> product_is(
                    mark_on(holdings[i], bars),
                    holdings[i].holding.shares,
                    #[trigger] values[i],
                )
            &&& #[trigger] total_is(start, values, value)
        }
}

/// Total mark-to-market value of the open holdings, using each ticker's close today when
/// it has a bar and its last seen mark otherwise.
pub fn holdings_value<N: Number>(holdings: &Vec<Position<N>>, bars: &Vec<TickerBar<N>>) -> (value:
    N)
    requires
        distinct_bars(bars@),
    ensures
        holdings_value_is(holdings@, bars@, value),
{
    let start = N::empty_sum();
    let mut value = start;
    let ghost mut values: Seq<N> = Seq::empty();
    let mut at: usize = 0;
    while at < holdings.len()
        invariant
            at <= holdings.len(),
            distinct_bars(bars@),
            values.len() == at,
            forall|i: int|
                0 <= i < values.len() ==> product_is(
                    mark_on(holdings@[i], bars@),
                    holdings@[i].holding.shares,
                    #[trigger] values[i],
                ),
            total_is(start, values, value),
        decreases holdings.len() - at,
    {
        let position = &holdings[at];
        let slot = find_bar(bars, &position.ticker);
        let mark = if slot < bars.len() {
            bars[slot].bar.close
        } else {
            position.holding.mark
        };
        let worth = mark.times(position.holding.shares);
        let total = value.plus(worth);
        proof {
            let longer = values.push(worth);
            assert(longer.drop_last() =~= values);
            assert(sum_is(value, longer.last(), total));
            assert(total_is(start, longer, total));
            values = longer;
        }
        value = total;
        at = at + 1;
    }
    value
}

/// `shares` is the share count of `lots` whole lots.
pub open spec fn lots_are<N: Number>(lots: u64, shares: N) -> bool {
    exists|count: N, lot: N|
        ratio_is(lots, 1, count) && ratio_is(LOT, 1, lot) && product_is(count, lot, shares)
}

/// `cost` is what buying `shares` at `price` takes: the gross `amount` and the commission
/// on it.
pub open spec fn cost_is<N: Number>(price: N, shares: N, amount: N, cost: N) -> bool {
    &&& product_is(price, shares, amount)
    &&& exists|fee: N| #[trigger] commission_is(amount, fee) && sum_is(amount, fee, cost)
}

/// Whether `cash` covers buying `shares` at `price` is `covered`.
pub open spec fn covered_is<N: Number>(price: N, shares: N, cash: N, covered: bool) -> bool {
    exists|amount: N, cost: N| #[trigger]
        cost_is(price, shares, amount, cost) && reaches_is(cash, cost, covered)
}

/// `cash` does not cover `lots` whole lots at `price`.
pub open spec fn lots_too_dear<N: Number>(price: N, lots: u64, cash: N) -> bool {
    exists|shares: N| #[trigger] lots_are(lots, shares) && covered_is(price, shares, cash, false)
}

/// `shares` is the share count of `lots` whole lots, the most up to `most` that `cash`
/// covers: more of them are too dear, and they are covered unless there are none.
pub open spec fn most_lots<N: Number>(price: N, cash: N, most: u64, lots: u64, shares: N) -> bool {
    &&& lots <= most
    &&& lots_are(lots, shares)
    &&& forall|more: u64| lots < more <= most ==> #[trigger] lots_too_dear(price, more, cash)
    &&& lots > 0 ==> covered_is(price, shares, cash, true)
}

/// `shares` is the whole-lot share count that `budget` affords at `price`, trimmed until
/// `cash` also covers the commission. It is that of no lots where the budget does not reach
/// a positive share count.
pub open spec fn affordable_is<N: Number>(budget: N, price: N, cash: N, shares: N) -> bool {
    exists|lot: N, block: N, count: N, floored: N, first: N, zero: N, some: bool|
        {
            &&& ratio_is(LOT, 1, lot)
            &&& product_is(price, lot, block)
            &&& quotient_is(budget, block, count)
            &&& floor_is(count, floored)
            &&& product_is(floored, lot, first)
            &&& ratio_is(0, 1, zero)
            &&& exceeds_is(first, zero, some)
            &&& if some {
                exists|most: u64, lots: u64|
                    whole_is(floored, most) && #[trigger] most_lots(price, cash, most, lots, shares)
            } else {
                lots_are(0, shares)
            }
        }
}

/// Whole-lot shares affordable for `budget`, trimmed until `cash` also covers the
/// commission. Zero when even one lot is out of reach.
pub fn affordable_shares<N: Number>(budget: N, price: N, cash: N) -> (shares: N)
    ensures
        affordable_is(budget, price, cash, shares),
{
    let lot = N::from_ratio(LOT, 1);
    let block = price.times(lot);
    let count = budget.over(block);
    let floored = count.floor();
    let first = floored.times(lot);
    let zero = N::from_ratio(0, 1);
    let some = first.exceeds(zero);
    if !some {
        let none = zero.times(lot);
        assert(lots_are(0, none));
        return none;
    }
    let most: u64 = floored.whole();
    let mut lots: u64 = most;
    while lots > 0
        invariant
            lots <= most,
            ratio_is(LOT, 1, lot),
            product_is(price, lot, block),
            quotient_is(budget, block, count),
            floor_is(count, floored),
            product_is(floored, lot, first),
            ratio_is(0, 1, zero),
            exceeds_is(first, zero, some),
            some,
            whole_is(floored, most),
            forall|more: u64| lots < more <= most ==> #[trigger] lots_too_dear(price, more, cash),
        decreases lots,
    {
        let shares = N::from_ratio(lots, 1).times(lot);
        assert(lots_are(lots, shares));
        let amount = price.times(shares);
        let cost = amount.plus(commission(amount));
        assert(cost_is(price, shares, amount, cost));
        if cash.reaches(cost) {
            assert(most_lots(price, cash, most, lots, shares));
            return shares;
        }
        assert(lots_too_dear(price, lots, cash));
        lots = lots - 1;
    }
    let shares = N::from_ratio(0, 1).times(lot);
    assert(lots_are(0, shares));
    assert(most_lots(price, cash, most, 0, shares));
    shares
}

/// `next` is the account after `shares` of `entry` were bought at `price`: the balance pays
/// the cost, the event is logged, and the position is opened.
pub open spec fn bought<N: Number>(
    account: Account<N>,
    entry: TickerBar<N>,
    date: i32,
    index: usize,
    price: N,
    shares: N,
    next: Account<N>,
) -> bool {
    exists|amount: N, cost: N|
        {
            &&& #[trigger] cost_is(price, shares, amount, cost)
            &&& difference_is(account.cash, cost, next.cash)
            &&& next.holdings == account.holdings.push(
                Position {
                    ticker: entry.ticker,
                    holding: Holding {
                        shares,
                        cost,
                        mark: entry.bar.close,
                        entry_date: date,
                        entry_price: price,
                        entry_index: index,
                    },
                },
            )
            &&& next.trades == account.trades
            &&& next.events == account.events.push(
                TradeEvent {
                    date,
                    ticker: entry.ticker,
                    side: Side::Buy,
                    reason: None,
                    price,
                    shares,
                    amount,
                    cash_after: next.cash,
                },
            )
        }
}

/// `next` is the account after `entry` had its turn in the buy phase. It is bought if a
/// slot is open and the budget, `target` or the cash that is left, affords a lot.
pub open spec fn buy_step<N: Number>(
    account: Account<N>,
    entry: TickerBar<N>,
    date: i32,
    index: usize,
    rules: BuyRules<N>,
    target: N,
    next: Account<N>,
) -> bool {
    if account.holdings.len() >= rules.max_holdings {
        next == account
    } else {
        exists|price: N, budget: N, shares: N, zero: N, none: bool|
            {
                &&& buy_price_is(entry.bar, rules.fill, price)
                &&& smaller_is(target, account.cash, budget)
                &&& #[trigger] affordable_is(budget, price, account.cash, shares)
                &&& ratio_is(0, 1, zero)
                &&& #[trigger] reaches_is(zero, shares, none)
                &&& if none {
                    next == account
                } else {
                    bought(account, entry, date, index, price, shares, next)
                }
            }
    }
}

/// `next` is the account after the first `count` candidates of `list` had their turn.
pub open spec fn buys_upto<N: Number>(
    account: Account<N>,
    list: Seq<Ranked>,
    day: TradingDay<N>,
    index: usize,
    rules: BuyRules<N>,
    target: N,
    count: nat,
    next: Account<N>,
) -> bool
    decreases count,
{
    if count == 0 {
        next == account
    } else {
        exists|earlier: Account<N>|
            {
                &&& buys_upto(account, list, day, index, rules, target, (count - 1) as nat, earlier)
                &&& #[trigger] buy_step(
                    earlier,
                    day.bars@[list[count - 1].slot as int],
                    day.date,
                    index,
                    rules,
                    target,
                    next,
                )
            }
    }
}

/// `target` is what each buy of the day aims to spend: an equal share of the account's
/// value at the start of the buy phase.
pub open spec fn target_is<N: Number>(
    account: Account<N>,
    bars: Seq<TickerBar<N>>,
    max_holdings: usize,
    target: N,
) -> bool {
    exists|value: N, equity: N, slots: N|
        {
            &&& #[trigger] holdings_value_is(account.holdings, bars, value)
            &&& sum_is(account.cash, value, equity)
            &&& ratio_is(
                if max_holdings == 0 {
                    1
                } else {
                    max_holdings as u64
                },
                1,
                slots,
            )
            &&& #[trigger] quotient_is(equity, slots, target)
        }
}

/// `next` is the account after the day's buy phase: every candidate had its turn,
/// strongest first, all sized against one target.
pub open spec fn buy_phase_is<N: Number>(
    account: Account<N>,
    day: TradingDay<N>,
    index: usize,
    rules: BuyRules<N>,
    next: Account<N>,
) -> bool {
    exists|target: N, list: Seq<Ranked>|
        {
            &&& target_is(account, day.bars@, rules.max_holdings, target)
            &&& #[trigger] candidates_are(day.bars@, account.holdings, rules.threshold, list)
            &&& #[trigger] buys_upto(account, list, day, index, rules, target, list.len(), next)
        }
}

/// Buy `shares` of one ticker at `price` and open the position.
fn book_buy<N: Number>(
    ledger: &mut Ledger<N>,
    entry: &TickerBar<N>,
    date: i32,
    index: usize,
    price: N,
    shares: N,
)
    ensures
        bought(old(ledger)@, *entry, date, index, price, shares, final(ledger)@),
{
    let ghost before = ledger@;
    let amount = price.times(shares);
    let cost = amount.plus(commission(amount));
    assert(cost_is(price, shares, amount, cost));
    let cash = ledger.cash.minus(cost);
    ledger.cash = cash;
    ledger.events.push(
        TradeEvent {
            date,
            ticker: entry.ticker.clone(),
            side: Side::Buy,
            reason: None,
            price,
            shares,
            amount,
            cash_after: cash,
        },
    );
    ledger.holdings.push(
        Position {
            ticker: entry.ticker.clone(),
            holding: Holding {
                shares,
                cost,
                mark: entry.bar.close,
                entry_date: date,
                entry_price: price,
                entry_index: index,
            },
        },
    );
    assert(difference_is(before.cash, cost, ledger@.cash));
}

/// Fill open slots with the strongest above-threshold names not already held.
pub fn buy_phase<N: Number>(
    day: &TradingDay<N>,
    index: usize,
    rules: &BuyRules<N>,
    ledger: &mut Ledger<N>,
)
    requires
        day.wf(),
        rules.max_holdings <= u32::MAX,
    ensures
        buy_phase_is(old(ledger)@, *day, index, *rules, final(ledger)@),
{
    let ghost start = ledger@;
    // Equal-weight target from equity at the buy phase start, so all of the day's buys
    // size against the same value.
    let value = holdings_value(&ledger.holdings, &day.bars);
    let equity = ledger.cash.plus(value);
    let count: u64 = if rules.max_holdings == 0 {
        1
    } else {
        rules.max_holdings as u64
    };
    let slots = N::from_ratio(count, 1);
    let target = equity.over(slots);
    assert(holdings_value_is(start.holdings, day.bars@, value));
    assert(sum_is(start.cash, value, equity));
    assert(ratio_is(count, 1, slots));
    assert(quotient_is(equity, slots, target));
    assert(target_is(start, day.bars@, rules.max_holdings, target));

    let list = candidates(&day.bars, &ledger.holdings, rules.threshold);
    let mut turn: usize = 0;
    while turn < list.len()
        invariant
            turn <= list.len(),
            forall|k: int| 0 <= k < list.len() ==> stands_for(day.bars@, #[trigger] list@[k]),
            buys_upto(start, list@, *day, index, *rules, target, turn as nat, ledger@),
        decreases list.len() - turn,
    {
        let ghost before = ledger@;
        assert(stands_for(day.bars@, list@[turn as int]));
        let entry = &day.bars[list[turn].slot];
        if ledger.holdings.len() < rules.max_holdings {
            let price = buy_price(&entry.bar, rules.fill);
            let budget = target.smaller(ledger.cash);
            let shares = affordable_shares(budget, price, ledger.cash);
            let zero = N::from_ratio(0, 1);
            let none = zero.reaches(shares);
            if !none {
                book_buy(ledger, entry, day.date, index, price, shares);
            }
            assert(affordable_is(budget, price, before.cash, shares));
            assert(reaches_is(zero, shares, none));
        }
        turn = turn + 1;
        proof {
            let dealt = turn as nat;
            assert(buys_upto(
                start,
                list@,
                *day,
                index,
                *rules,
                target,
                (dealt - 1) as nat,
                before,
            ));
            assert(buy_step(
                before,
                day.bars@[list@[dealt - 1].slot as int],
                day.date,
                index,
                *rules,
                target,
                ledger@,
            ));
        }
    }
}

/// The holdings with every mark at the day's close, for those that traded.
pub open spec fn marked<N>(holdings: Seq<Position<N>>, bars: Seq<TickerBar<N>>) -> Seq<
    Position<N>,
> {
    Seq::new(
        holdings.len(),
        |i: int|
            Position {
                ticker: holdings[i].ticker,
                holding: Holding { mark: mark_on(holdings[i], bars), ..holdings[i].holding },
            },
    )
}

/// Refresh the marks of held tickers that traded today.
pub fn refresh_marks<N: Number>(holdings: &mut Vec<Position<N>>, bars: &Vec<TickerBar<N>>)
    requires
        distinct_bars(bars@),
    ensures
        final(holdings)@ == marked(old(holdings)@, bars@),
{
    let ghost before = holdings@;
    let mut at: usize = 0;
    while at < holdings.len()
        invariant
            at <= holdings.len(),
            distinct_bars(bars@),
            holdings.len() == before.len(),
            forall|i: int| 0 <= i < at ==> #[trigger] holdings@[i] == marked(before, bars@)[i],
            forall|i: int| at <= i < holdings.len() ==> #[trigger] holdings@[i] == before[i],
        decreases holdings.len() - at,
    {
        let slot = find_bar(bars, &holdings[at].ticker);
        if slot < bars.len() {
            let close = bars[slot].bar.close;
            holdings[at].holding.mark = close;
        }
        at = at + 1;
    }
    assert(holdings@ =~= marked(before, bars@));
}

/// `equity` is what the account is worth: the cash and every holding at its mark.
pub open spec fn equity_is<N: Number>(account: Account<N>, equity: N) -> bool {
    exists|value: N| #[trigger]
        holdings_value_is(account.holdings, Seq::empty(), value) && sum_is(
            account.cash,
            value,
            equity,
        )
}

/// Value of the account at the holdings' marks.
pub fn equity<N: Number>(ledger: &Ledger<N>) -> (equity: N)
    ensures
        equity_is(ledger@, equity),
{
    let none: Vec<TickerBar<N>> = Vec::new();
    let value = holdings_value(&ledger.holdings, &none);
    let equity = ledger.cash.plus(value);
    proof {
        assert(none@ =~= Seq::<TickerBar<N>>::empty());
        assert(holdings_value_is(ledger@.holdings, Seq::empty(), value));
        assert(sum_is(ledger@.cash, value, equity));
    }
    equity
}

} // verus!
