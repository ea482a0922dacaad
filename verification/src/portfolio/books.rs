//! What holds of the account at every point of a run.
use vstd::prelude::*;

use crate::number::Number;
#[allow(unused_imports)]
use crate::number::{product_is, ratio_is};
#[allow(unused_imports)]
use crate::portfolio::orders::{
    affordable_is, booked, bought, buy_phase_is, buy_step, buys_upto, candidates_are, closed_trade,
    marked, pick_is, picks_are, sale_is, sell_event, stands_for, strongest_first, target_is,
    BuyRules,
};
#[allow(unused_imports)]
use crate::portfolio::pricing::LOT;
#[allow(unused_imports)]
use crate::portfolio::ranking::Ranked;
#[allow(unused_imports)]
use crate::portfolio::types::{
    distinct_holdings, holds, Account, ExitReason, Position, Side, TickerBar, TradeEvent,
    TradingDay,
};

verus! {

/// How many of the events are sells.
pub open spec fn sell_count<N>(events: Seq<TradeEvent<N>>) -> nat
    decreases events.len(),
{
    if events.len() == 0 {
        0
    } else {
        sell_count(events.drop_last()) + if events.last().side == Side::Sell {
            1nat
        } else {
            0nat
        }
    }
}

/// The share count is a multiple of a lot.
pub open spec fn whole_lots<N: Number>(shares: N) -> bool {
    exists|count: N, lot: N| ratio_is(LOT, 1, lot) && #[trigger] product_is(count, lot, shares)
}

/// Every holding is whole lots, a sell and nothing else has an exit reason, each sell
/// closed one trade, what was bought and not sold is held or one of the `pending` positions
/// that an exit rule is still to deal with, and the cash is what the last event left.
pub open spec fn books_stand<N: Number>(
    account: Account<N>,
    pending: nat,
    starting_cash: N,
) -> bool {
    &&& forall|i: int|
        0 <= i < account.holdings.len() ==> whole_lots(
            (#[trigger] account.holdings[i]).holding.shares,
        )
    &&& forall|i: int|
        0 <= i < account.events.len() ==> ((#[trigger] account.events[i]).side == Side::Sell) == (
        account.events[i].reason is Some)
    &&& sell_count(account.events) == account.trades.len()
    &&& account.events.len() == 2 * account.trades.len() + account.holdings.len() + pending
    &&& account.cash == if account.events.len() == 0 {
        starting_cash
    } else {
        account.events.last().cash_after
    }
}

/// What holds of the account between two phases of day `index`: no ticker is held twice,
/// no more positions are open than there are slots, none was opened after that day, and
/// the books stand.
pub open spec fn account_sound<N: Number>(
    account: Account<N>,
    index: int,
    max_holdings: usize,
    starting_cash: N,
) -> bool {
    &&& distinct_holdings(account.holdings)
    &&& account.holdings.len() <= max_holdings
    &&& forall|i: int|
        0 <= i < account.holdings.len() ==> (#[trigger] account.holdings[i]).holding.entry_index
            <= index
    &&& books_stand(account, 0, starting_cash)
}

/// A sale of one of the pending positions keeps the books.
pub proof fn lemma_sale_keeps_books<N: Number>(
    account: Account<N>,
    remaining: Seq<Position<N>>,
    position: Position<N>,
    date: i32,
    price: N,
    reason: ExitReason,
    next: Account<N>,
    pending: nat,
    starting_cash: N,
)
    requires
        books_stand(Account { holdings: remaining, ..account }, pending, starting_cash),
        pending > 0,
        booked(account, remaining, position, date, price, reason, next),
    ensures
        books_stand(next, (pending - 1) as nat, starting_cash),
        next.holdings == remaining,
        next.trades.len() == account.trades.len() + 1,
{
    let sale = choose|sale| #[trigger]
        sale_is(account.cash, position.holding, price, sale) && next.cash == sale.cash_after
            && next.holdings == remaining && next.trades == account.trades.push(
            closed_trade(position, date, price, reason, sale),
        ) && next.events == account.events.push(sell_event(position, date, price, reason, sale));
    let event = sell_event(position, date, price, reason, sale);
    assert(next.events == account.events.push(event));
    assert(next.events.drop_last() =~= account.events);
    assert(next.events.last() == event);
}

/// One candidate's turn keeps the books, opens at most its own position, and fills no
/// more slots than there are.
pub proof fn lemma_buy_step_keeps<N: Number>(
    account: Account<N>,
    entry: TickerBar<N>,
    date: i32,
    index: usize,
    rules: BuyRules<N>,
    target: N,
    next: Account<N>,
    starting_cash: N,
)
    requires
        books_stand(account, 0, starting_cash),
        account.holdings.len() <= rules.max_holdings,
        buy_step(account, entry, date, index, rules, target, next),
    ensures
        books_stand(next, 0, starting_cash),
        next.holdings.len() <= rules.max_holdings,
        next.trades == account.trades,
        next.holdings == account.holdings || (next.holdings.len() == account.holdings.len() + 1
            && next.holdings.drop_last() == account.holdings && next.holdings.last().ticker@
            == entry.ticker@ && next.holdings.last().holding.entry_index == index),
{
    if next != account {
        let (price, budget, shares) = choose|price: N, budget: N, shares: N|
            #[trigger] affordable_is(budget, price, account.cash, shares) && bought(
                account,
                entry,
                date,
                index,
                price,
                shares,
                next,
            );
        assert(whole_lots(shares));
        assert(next.holdings.drop_last() =~= account.holdings);
        assert(next.events.drop_last() =~= account.events);
        assert forall|i: int| 0 <= i < next.holdings.len() implies whole_lots(
            (#[trigger] next.holdings[i]).holding.shares,
        ) by {
            if i < account.holdings.len() {
                assert(next.holdings[i] == account.holdings[i]);
            }
        }
    }
}

/// `ticker` is the name of one of the first `count` entries.
pub open spec fn named_before(list: Seq<Ranked>, count: int, ticker: Seq<char>) -> bool {
    exists|k: int| 0 <= k < count && (#[trigger] list[k]).name@ == ticker
}

/// The turns of the first `count` candidates leave a sound account sound, and open no other
/// positions than theirs.
pub proof fn lemma_buys_keep<N: Number>(
    account: Account<N>,
    picks: Seq<bool>,
    list: Seq<Ranked>,
    day: TradingDay<N>,
    index: usize,
    rules: BuyRules<N>,
    target: N,
    count: nat,
    next: Account<N>,
    starting_cash: N,
)
    requires
        day.wf(),
        account_sound(account, index as int, rules.max_holdings, starting_cash),
        picks_are(day.bars@, account.holdings, rules.threshold, picks),
        strongest_first(day.bars@, picks, list),
        count <= list.len(),
        buys_upto(account, list, day, index, rules, target, count, next),
    ensures
        account_sound(next, index as int, rules.max_holdings, starting_cash),
        next.trades == account.trades,
        forall|i: int|
            0 <= i < next.holdings.len() ==> holds(
                account.holdings,
                (#[trigger] next.holdings[i]).ticker@,
            ) || named_before(list, count as int, next.holdings[i].ticker@),
    decreases count,
{
    if count == 0 {
        assert forall|i: int| 0 <= i < next.holdings.len() implies holds(
            account.holdings,
            (#[trigger] next.holdings[i]).ticker@,
        ) by {
            assert(account.holdings[i].ticker@ == next.holdings[i].ticker@);
        }
    } else {
        let slot = list[count - 1].slot as int;
        let entry = day.bars@[slot];
        let earlier = choose|earlier: Account<N>|
            {
                &&& buys_upto(account, list, day, index, rules, target, (count - 1) as nat, earlier)
                &&& #[trigger] buy_step(
                    earlier,
                    day.bars@[list[count - 1].slot as int],
                    day.date,
                    index,
                    rules,
                    target,
                    next,
                )
            };
        lemma_buys_keep(
            account,
            picks,
            list,
            day,
            index,
            rules,
            target,
            (count - 1) as nat,
            earlier,
            starting_cash,
        );
        lemma_buy_step_keeps(earlier, entry, day.date, index, rules, target, next, starting_cash);
        assert(stands_for(day.bars@, list[count - 1]));
        assert(pick_is(entry, account.holdings, rules.threshold, picks[slot]));
        assert forall|k: int| 0 <= k < count - 1 implies (#[trigger] list[k]).name@
            != entry.ticker@ by {
            assert(stands_for(day.bars@, list[k]));
            assert(list[k].slot != list[count - 1].slot);
            assert(day.bars@[list[k].slot as int].ticker@ != day.bars@[slot].ticker@);
        }
        assert forall|i: int| 0 <= i < next.holdings.len() implies holds(
            account.holdings,
            (#[trigger] next.holdings[i]).ticker@,
        ) || named_before(list, count as int, next.holdings[i].ticker@) by {
            if i < earlier.holdings.len() {
                assert(next.holdings[i] == earlier.holdings[i]);
                if !holds(account.holdings, earlier.holdings[i].ticker@) {
                    assert(named_before(list, count - 1, earlier.holdings[i].ticker@));
                    let k = choose|k: int|
                        0 <= k < count - 1 && (#[trigger] list[k]).name@
                            == earlier.holdings[i].ticker@;
                    assert(list[k].name@ == next.holdings[i].ticker@);
                }
            } else {
                assert(list[count - 1].name@ == next.holdings[i].ticker@);
            }
        }
        if next.holdings.len() > earlier.holdings.len() {
            assert forall|i: int, j: int|
                #![trigger next.holdings[i], next.holdings[j]]
                0 <= i < j < next.holdings.len() implies next.holdings[i].ticker@
                != next.holdings[j].ticker@ by {
                assert(next.holdings[i] == earlier.holdings[i]);
                if j < earlier.holdings.len() {
                    assert(next.holdings[j] == earlier.holdings[j]);
                } else {
                    assert(!holds(account.holdings, entry.ticker@));
                    assert(!named_before(list, count - 1, entry.ticker@));
                }
            }
        }
        assert forall|i: int| 0 <= i < next.holdings.len() implies (
        #[trigger] next.holdings[i]).holding.entry_index <= index by {
            if i < earlier.holdings.len() {
                assert(next.holdings[i] == earlier.holdings[i]);
            }
        }
    }
}

/// The buy phase leaves a sound account sound, and closes no trade.
pub proof fn buy_phase_keeps_sound<N: Number>(
    account: Account<N>,
    day: TradingDay<N>,
    index: usize,
    rules: BuyRules<N>,
    next: Account<N>,
    starting_cash: N,
)
    requires
        day.wf(),
        account_sound(account, index as int, rules.max_holdings, starting_cash),
        buy_phase_is(account, day, index, rules, next),
    ensures
        account_sound(next, index as int, rules.max_holdings, starting_cash),
        next.trades == account.trades,
{
    let (target, list) = choose|target: N, list: Seq<Ranked>|
        {
            &&& target_is(account, day.bars@, rules.max_holdings, target)
            &&& #[trigger] candidates_are(day.bars@, account.holdings, rules.threshold, list)
            &&& #[trigger] buys_upto(account, list, day, index, rules, target, list.len(), next)
        };
    let picks = choose|picks: Seq<bool>| #[trigger]
        picks_are(day.bars@, account.holdings, rules.threshold, picks) && strongest_first(
            day.bars@,
            picks,
            list,
        );
    lemma_buys_keep(
        account,
        picks,
        list,
        day,
        index,
        rules,
        target,
        list.len(),
        next,
        starting_cash,
    );
}

/// Refreshing the marks leaves a sound account sound.
pub proof fn marking_keeps_sound<N: Number>(
    account: Account<N>,
    bars: Seq<TickerBar<N>>,
    index: int,
    max_holdings: usize,
    starting_cash: N,
)
    requires
        account_sound(account, index, max_holdings, starting_cash),
    ensures
        account_sound(
            (Account { holdings: marked(account.holdings, bars), ..account }),
            index,
            max_holdings,
            starting_cash,
        ),
{
    let next = Account { holdings: marked(account.holdings, bars), ..account };
    assert forall|i: int| 0 <= i < next.holdings.len() implies whole_lots(
        (#[trigger] next.holdings[i]).holding.shares,
    ) by {
        assert(whole_lots(account.holdings[i].holding.shares));
    }
    assert forall|i: int, j: int|
        #![trigger next.holdings[i], next.holdings[j]]
        0 <= i < j < next.holdings.len() implies next.holdings[i].ticker@
        != next.holdings[j].ticker@ by {
        assert(account.holdings[i].ticker@ != account.holdings[j].ticker@);
    }
    assert forall|i: int| 0 <= i < next.holdings.len() implies (
    #[trigger] next.holdings[i]).holding.entry_index <= index by {
        assert(account.holdings[i].holding.entry_index <= index);
    }
}

} // verus!
