//! What the event log of a run tells when it is replayed.
use vstd::prelude::*;

use crate::number::Number;
#[allow(unused_imports)]
use crate::number::{difference_is, exact, larger_is, product_is, ratio_is, reaches_is, sum_is};
#[allow(unused_imports)]
use crate::portfolio::books::{account_sound, lemma_buys_keep, whole_lots};
#[allow(unused_imports)]
use crate::portfolio::exits::{
    exit_is, exit_step, exits_upto, sell_phase_is, sell_phase_keeps_sound, ExitRules,
};
#[allow(unused_imports)]
use crate::portfolio::orders::{
    affordable_is, booked, bought, buy_phase_is, buy_step, buys_upto, candidates_are, cost_is,
    equity_is, lots_are, marked, most_lots, picks_are, strongest_first, BuyRules,
};
#[allow(unused_imports)]
use crate::portfolio::pricing::{commission_is, COMMISSION_PPM, LOT, MIN_COMMISSION};
#[allow(unused_imports)]
use crate::portfolio::ranking::Ranked;
#[allow(unused_imports)]
use crate::portfolio::rotation::{
    rotate_phase_is, rotate_phase_keeps_sound, rotate_step, rotated_upto,
};
#[allow(unused_imports)]
use crate::portfolio::simulation::{
    day_at, day_is, opened_is, run_keeps_sound, runs_upto, Strategy,
};
#[allow(unused_imports)]
use crate::portfolio::types::{
    bar_of, distinct_holdings, holds, Account, EquityPoint, ExitReason, Fill, Position, Side, TickerBar,
    TradeEvent, TradingDay,
};

verus! {

/// The positions that are open after the events, as shares by ticker: a buy opens one, a sell
/// closes it.
pub open spec fn open_after<N>(events: Seq<TradeEvent<N>>) -> Map<Seq<char>, N>
    decreases events.len(),
{
    if events.len() == 0 {
        Map::empty()
    } else {
        let open = open_after(events.drop_last());
        let event = events.last();
        match event.side {
            Side::Buy => open.insert(event.ticker@, event.shares),
            Side::Sell => open.remove(event.ticker@),
        }
    }
}

/// The cash before event `at` of the log.
pub open spec fn cash_before<N>(events: Seq<TradeEvent<N>>, at: int, starting_cash: N) -> N {
    if at == 0 {
        starting_cash
    } else {
        events[at - 1].cash_after
    }
}

/// The event is a buy that `cash` pays for: of whole lots that some budget affords, above
/// zero, with the cost taken off the cash.
pub open spec fn buy_is_paid<N: Number>(cash: N, event: TradeEvent<N>) -> bool {
    exists|budget: N, cost: N, zero: N|
        {
            &&& #[trigger] affordable_is(budget, event.price, cash, event.shares)
            &&& ratio_is(0, 1, zero)
            &&& #[trigger] reaches_is(zero, event.shares, false)
            &&& cost_is(event.price, event.shares, event.amount, cost)
            &&& #[trigger] difference_is(cash, cost, event.cash_after)
        }
}

/// The event may follow when these positions are open and there is this much cash: a buy opens
/// a position that is not open, in a free slot, and is paid for; a sell closes one that is
/// open, with as many shares as it was opened with.
pub open spec fn may_follow<N: Number>(
    open: Map<Seq<char>, N>,
    cash: N,
    event: TradeEvent<N>,
    max_holdings: usize,
) -> bool {
    match event.side {
        Side::Buy => {
            &&& !open.dom().contains(event.ticker@)
            &&& open.dom().len() < max_holdings
            &&& whole_lots(event.shares)
            &&& buy_is_paid(cash, event)
        },
        Side::Sell => open.dom().contains(event.ticker@) && open[event.ticker@] == event.shares,
    }
}

/// Every event of the log may follow on those before it.
pub open spec fn log_stands<N: Number>(
    events: Seq<TradeEvent<N>>,
    starting_cash: N,
    max_holdings: usize,
) -> bool {
    forall|k: int|
        0 <= k < events.len() ==> may_follow(
            open_after(events.take(k)),
            cash_before(events, k, starting_cash),
            #[trigger] events[k],
            max_holdings,
        )
}

/// The positions that are open are `positions`, with their shares.
pub open spec fn open_are<N>(open: Map<Seq<char>, N>, positions: Seq<Position<N>>) -> bool {
    &&& open.dom().finite()
    &&& open.dom().len() == positions.len()
    &&& forall|i: int|
        0 <= i < positions.len() ==> open.dom().contains((#[trigger] positions[i]).ticker@)
            && open[positions[i].ticker@] == positions[i].holding.shares
    &&& forall|ticker: Seq<char>| #[trigger]
        open.dom().contains(ticker) ==> holds(positions, ticker)
}

/// The log stands, it leaves `positions` open, and its last event the account's cash.
spec fn replays_to<N: Number>(
    account: Account<N>,
    positions: Seq<Position<N>>,
    starting_cash: N,
    max_holdings: usize,
) -> bool {
    &&& log_stands(account.events, starting_cash, max_holdings)
    &&& distinct_holdings(positions)
    &&& open_are(open_after(account.events), positions)
    &&& account.cash == cash_before(account.events, account.events.len() as int, starting_cash)
}

proof fn lemma_log_pushed<N: Number>(
    events: Seq<TradeEvent<N>>,
    event: TradeEvent<N>,
    starting_cash: N,
    max_holdings: usize,
)
    requires
        log_stands(events, starting_cash, max_holdings),
        may_follow(
            open_after(events),
            cash_before(events, events.len() as int, starting_cash),
            event,
            max_holdings,
        ),
    ensures
        log_stands(events.push(event), starting_cash, max_holdings),
{
    let longer = events.push(event);
    assert forall|k: int| 0 <= k < longer.len() implies may_follow(
        open_after(longer.take(k)),
        cash_before(longer, k, starting_cash),
        #[trigger] longer[k],
        max_holdings,
    ) by {
        if k < events.len() {
            assert(longer.take(k) =~= events.take(k));
            assert(longer[k] == events[k]);
        } else {
            assert(longer.take(k) =~= events);
        }
    }
}

proof fn lemma_sold<N: Number>(
    account: Account<N>,
    positions: Seq<Position<N>>,
    at: int,
    remaining: Seq<Position<N>>,
    date: i32,
    price: N,
    reason: ExitReason,
    next: Account<N>,
    starting_cash: N,
    max_holdings: usize,
)
    requires
        replays_to(account, positions, starting_cash, max_holdings),
        0 <= at < positions.len(),
        booked(account, remaining, positions[at], date, price, reason, next),
    ensures
        replays_to(next, positions.remove(at), starting_cash, max_holdings),
{
    let event = next.events.last();
    let ticker = positions[at].ticker@;
    let open = open_after(account.events);
    let fewer = positions.remove(at);
    assert(next.events == account.events.push(event));
    assert(next.events.drop_last() =~= account.events);
    lemma_log_pushed(account.events, event, starting_cash, max_holdings);
    assert(open_after(next.events) == open.remove(ticker));
    assert forall|i: int| 0 <= i < fewer.len() implies open.remove(ticker).dom().contains(
        (#[trigger] fewer[i]).ticker@,
    ) && open.remove(ticker)[fewer[i].ticker@] == fewer[i].holding.shares by {
        let p = if i < at {
            i
        } else {
            i + 1
        };
        assert(fewer[i] == positions[p]);
        if p < at {
            assert(positions[p].ticker@ != positions[at].ticker@);
        } else {
            assert(positions[at].ticker@ != positions[p].ticker@);
        }
    }
    assert forall|name: Seq<char>| #[trigger] open.remove(ticker).dom().contains(name) implies holds(
        fewer,
        name,
    ) by {
        assert(open.dom().contains(name));
        let p = choose|p: int| 0 <= p < positions.len() && (#[trigger] positions[p]).ticker@ == name;
        let i = if p < at {
            p
        } else {
            p - 1
        };
        assert(fewer[i] == positions[p]);
        assert(fewer[i].ticker@ == name);
    }
    assert forall|i: int, j: int|
        #![trigger fewer[i], fewer[j]]
        0 <= i < j < fewer.len() implies fewer[i].ticker@ != fewer[j].ticker@ by {
        let p = if i < at {
            i
        } else {
            i + 1
        };
        let q = if j < at {
            j
        } else {
            j + 1
        };
        assert(positions[p].ticker@ != positions[q].ticker@);
    }
}

proof fn lemma_exits_replay<N: Number>(
    account: Account<N>,
    day: TradingDay<N>,
    index: int,
    is_last: bool,
    rules: ExitRules<N>,
    count: nat,
    next: Account<N>,
    starting_cash: N,
    max_holdings: usize,
)
    requires
        replays_to(account, account.holdings, starting_cash, max_holdings),
        count <= account.holdings.len(),
        exits_upto(account, day, index, is_last, rules, count, next),
    ensures
        replays_to(
            next,
            next.holdings + account.holdings.skip(count as int),
            starting_cash,
            max_holdings,
        ),
    decreases count,
{
    if count == 0 {
        assert(next.holdings + account.holdings.skip(0) =~= account.holdings);
    } else {
        let before = (count - 1) as nat;
        let position = account.holdings[count - 1];
        let earlier = choose|earlier: Account<N>|
            {
                &&& exits_upto(account, day, index, is_last, rules, before, earlier)
                &&& #[trigger] exit_step(earlier, position, day, index, is_last, rules, next)
            };
        lemma_exits_replay(
            account,
            day,
            index,
            is_last,
            rules,
            before,
            earlier,
            starting_cash,
            max_holdings,
        );
        let positions = earlier.holdings + account.holdings.skip(before as int);
        let at = earlier.holdings.len() as int;
        assert(positions[at] == position);
        let decision = choose|decision: Option<(N, ExitReason)>|
            {
                &&& #[trigger] exit_is(
                    position.holding,
                    bar_of(day.bars@, position.ticker@),
                    index,
                    is_last,
                    rules,
                    decision,
                )
                &&& match decision {
                    None => next == (Account {
                        holdings: earlier.holdings.push(position),
                        ..earlier
                    }),
                    Some((price, reason)) => booked(
                        earlier,
                        earlier.holdings,
                        position,
                        day.date,
                        price,
                        reason,
                        next,
                    ),
                }
            };
        if decision is None {
            assert(next.holdings + account.holdings.skip(count as int) =~= positions);
        } else {
            let (price, reason) = decision->0;
            lemma_sold(
                earlier,
                positions,
                at,
                earlier.holdings,
                day.date,
                price,
                reason,
                next,
                starting_cash,
                max_holdings,
            );
            assert(next.holdings + account.holdings.skip(count as int) =~= positions.remove(at));
        }
    }
}

proof fn lemma_rotated_replay<N: Number>(
    account: Account<N>,
    held: Seq<Ranked>,
    day: TradingDay<N>,
    fill: Fill,
    count: nat,
    next: Account<N>,
    starting_cash: N,
    max_holdings: usize,
)
    requires
        replays_to(account, account.holdings, starting_cash, max_holdings),
        rotated_upto(account, held, day, fill, count, next),
    ensures
        replays_to(next, next.holdings, starting_cash, max_holdings),
    decreases count,
{
    if count > 0 {
        let before = (count - 1) as nat;
        let ticker = held[count - 1].name@;
        let earlier = choose|earlier: Account<N>|
            {
                &&& rotated_upto(account, held, day, fill, before, earlier)
                &&& #[trigger] rotate_step(earlier, ticker, day, fill, next)
            };
        lemma_rotated_replay(
            account,
            held,
            day,
            fill,
            before,
            earlier,
            starting_cash,
            max_holdings,
        );
        let (at, price) = choose|at: int, price: N|
            0 <= at < earlier.holdings.len() && #[trigger] booked(
                earlier,
                earlier.holdings.remove(at),
                earlier.holdings[at],
                day.date,
                price,
                ExitReason::Rotate,
                next,
            );
        lemma_sold(
            earlier,
            earlier.holdings,
            at,
            earlier.holdings.remove(at),
            day.date,
            price,
            ExitReason::Rotate,
            next,
            starting_cash,
            max_holdings,
        );
    }
}

proof fn lemma_bought_replay<N: Number>(
    account: Account<N>,
    entry: TickerBar<N>,
    date: i32,
    index: usize,
    rules: BuyRules<N>,
    target: N,
    next: Account<N>,
    starting_cash: N,
)
    requires
        replays_to(account, account.holdings, starting_cash, rules.max_holdings),
        buy_step(account, entry, date, index, rules, target, next),
        distinct_holdings(next.holdings),
    ensures
        replays_to(next, next.holdings, starting_cash, rules.max_holdings),
{
    if next != account {
        let (price, budget, shares, zero) = choose|price: N, budget: N, shares: N, zero: N|
            {
                &&& #[trigger] affordable_is(budget, price, account.cash, shares)
                &&& ratio_is(0, 1, zero)
                &&& #[trigger] reaches_is(zero, shares, false)
                &&& bought(account, entry, date, index, price, shares, next)
            };
        let (amount, cost) = choose|amount: N, cost: N|
            {
                &&& #[trigger] cost_is(price, shares, amount, cost)
                &&& difference_is(account.cash, cost, next.cash)
                &&& next.events.last().amount == amount
            };
        let event = next.events.last();
        let open = open_after(account.events);
        let ticker = entry.ticker@;
        let held = account.holdings.len() as int;
        assert(whole_lots(shares));
        assert forall|i: int| 0 <= i < held implies (#[trigger] account.holdings[i]).ticker@
            != ticker by {
            assert(next.holdings[i] == account.holdings[i]);
            assert(next.holdings[i].ticker@ != next.holdings[held].ticker@);
        }
        assert(!holds(account.holdings, ticker));
        assert(!open.dom().contains(ticker));
        assert(next.events == account.events.push(event));
        assert(next.events.drop_last() =~= account.events);
        assert(event.price == price && event.shares == shares && event.amount == amount);
        assert(affordable_is(budget, event.price, account.cash, event.shares));
        assert(reaches_is(zero, event.shares, false));
        assert(cost_is(event.price, event.shares, event.amount, cost));
        assert(difference_is(account.cash, cost, event.cash_after));
        assert(buy_is_paid(account.cash, event));
        lemma_log_pushed(account.events, event, starting_cash, rules.max_holdings);
        assert(open_after(next.events) == open.insert(ticker, shares));
        assert forall|i: int| 0 <= i < next.holdings.len() implies open.insert(
            ticker,
            shares,
        ).dom().contains((#[trigger] next.holdings[i]).ticker@) && open.insert(ticker, shares)[
            next.holdings[i].ticker@] == next.holdings[i].holding.shares by {
            if i < held {
                assert(next.holdings[i] == account.holdings[i]);
            }
        }
        assert forall|name: Seq<char>| #[trigger]
            open.insert(ticker, shares).dom().contains(name) implies holds(next.holdings, name) by {
            if name == ticker {
                assert(next.holdings[held].ticker@ == name);
            } else {
                assert(open.dom().contains(name));
                let p = choose|p: int|
                    0 <= p < account.holdings.len() && (#[trigger] account.holdings[p]).ticker@
                        == name;
                assert(next.holdings[p] == account.holdings[p]);
            }
        }
    }
}

proof fn lemma_buys_replay<N: Number>(
    account: Account<N>,
    picks: Seq<bool>,
    list: Seq<Ranked>,
    day: TradingDay<N>,
    index: usize,
    rules: BuyRules<N>,
    target: N,
    count: nat,
    next: Account<N>,
    starting_cash: N,
)
    requires
        day.wf(),
        account_sound(account, index as int, rules.max_holdings, starting_cash),
        picks_are(day.bars@, account.holdings, rules.threshold, picks),
        strongest_first(day.bars@, picks, list),
        count <= list.len(),
        replays_to(account, account.holdings, starting_cash, rules.max_holdings),
        buys_upto(account, list, day, index, rules, target, count, next),
    ensures
        replays_to(next, next.holdings, starting_cash, rules.max_holdings),
    decreases count,
{
    if count > 0 {
        let before = (count - 1) as nat;
        let entry = day.bars@[list[count - 1].slot as int];
        let earlier = choose|earlier: Account<N>|
            {
                &&& buys_upto(account, list, day, index, rules, target, before, earlier)
                &&& #[trigger] buy_step(earlier, entry, day.date, index, rules, target, next)
            };
        lemma_buys_replay(
            account,
            picks,
            list,
            day,
            index,
            rules,
            target,
            before,
            earlier,
            starting_cash,
        );
        lemma_buys_keep(
            account,
            picks,
            list,
            day,
            index,
            rules,
            target,
            count,
            next,
            starting_cash,
        );
        lemma_bought_replay(
            earlier,
            entry,
            day.date,
            index,
            rules,
            target,
            next,
            starting_cash,
        );
    }
}

#[verifier::rlimit(40)]
proof fn lemma_day_replays<N: Number>(
    account: Account<N>,
    day: TradingDay<N>,
    index: usize,
    is_last: bool,
    strategy: Strategy<N>,
    next: Account<N>,
    worth: N,
    starting_cash: N,
)
    requires
        day.wf(),
        account_sound(account, index as int, strategy.buys.max_holdings, starting_cash),
        replays_to(account, account.holdings, starting_cash, strategy.buys.max_holdings),
        day_is(account, day, index, is_last, strategy, next, worth),
    ensures
        replays_to(next, next.holdings, starting_cash, strategy.buys.max_holdings),
{
    let exits = strategy.exits;
    let rules = strategy.buys;
    let (sold, filled) = choose|sold: Account<N>, filled: Account<N>|
        {
            &&& sell_phase_is(account, day, index as int, is_last, exits, sold)
            &&& #[trigger] opened_is(sold, day, index, is_last, strategy, filled)
            &&& next == (Account { holdings: marked(filled.holdings, day.bars@), ..filled })
            &&& equity_is(next, worth)
        };
    let held = account.holdings.len();
    lemma_exits_replay(
        account,
        day,
        index as int,
        is_last,
        exits,
        held,
        sold,
        starting_cash,
        rules.max_holdings,
    );
    assert(sold.holdings + account.holdings.skip(held as int) =~= sold.holdings);
    sell_phase_keeps_sound(
        account,
        day,
        index as int,
        is_last,
        exits,
        sold,
        rules.max_holdings,
        starting_cash,
    );
    if !is_last {
        let rotated = choose|rotated: Account<N>|
            {
                &&& (if strategy.rotates {
                    rotate_phase_is(sold, day, rules, rotated)
                } else {
                    rotated == sold
                })
                &&& #[trigger] buy_phase_is(rotated, day, index, rules, filled)
            };
        if strategy.rotates {
            rotate_phase_keeps_sound(sold, day, rules, rotated, index as int, starting_cash);
            if rotated != sold {
                let (list, count) = choose|held: Seq<Ranked>, count: nat| #[trigger]
                    rotated_upto(sold, held, day, rules.fill, count, rotated);
                lemma_rotated_replay(
                    sold,
                    list,
                    day,
                    rules.fill,
                    count,
                    rotated,
                    starting_cash,
                    rules.max_holdings,
                );
            }
        }
        let (target, list) = choose|target: N, list: Seq<Ranked>|
            {
                &&& #[trigger] candidates_are(day.bars@, rotated.holdings, rules.threshold, list)
                &&& #[trigger] buys_upto(
                    rotated,
                    list,
                    day,
                    index,
                    rules,
                    target,
                    list.len(),
                    filled,
                )
            };
        let picks = choose|picks: Seq<bool>| #[trigger]
            picks_are(day.bars@, rotated.holdings, rules.threshold, picks) && strongest_first(
                day.bars@,
                picks,
                list,
            );
        lemma_buys_replay(
            rotated,
            picks,
            list,
            day,
            index,
            rules,
            target,
            list.len(),
            filled,
            starting_cash,
        );
    }
    let open = open_after(filled.events);
    assert forall|i: int| 0 <= i < next.holdings.len() implies open.dom().contains(
        (#[trigger] next.holdings[i]).ticker@,
    ) && open[next.holdings[i].ticker@] == next.holdings[i].holding.shares by {
        assert(next.holdings[i].ticker == filled.holdings[i].ticker);
    }
    assert forall|ticker: Seq<char>| #[trigger] open.dom().contains(ticker) implies holds(
        next.holdings,
        ticker,
    ) by {
        let p = choose|p: int|
            0 <= p < filled.holdings.len() && (#[trigger] filled.holdings[p]).ticker@ == ticker;
        assert(next.holdings[p].ticker@ == ticker);
    }
    assert forall|i: int, j: int|
        #![trigger next.holdings[i], next.holdings[j]]
        0 <= i < j < next.holdings.len() implies next.holdings[i].ticker@
        != next.holdings[j].ticker@ by {
        assert(filled.holdings[i].ticker@ != filled.holdings[j].ticker@);
    }
}

proof fn lemma_run_replays<N: Number>(
    days: Seq<TradingDay<N>>,
    strategy: Strategy<N>,
    count: nat,
    account: Account<N>,
    curve: Seq<EquityPoint<N>>,
)
    requires
        forall|i: int| 0 <= i < days.len() ==> (#[trigger] days[i]).wf(),
        count <= days.len() <= usize::MAX,
        runs_upto(days, strategy, count, account, curve),
    ensures
        replays_to(
            account,
            account.holdings,
            strategy.starting_cash,
            strategy.buys.max_holdings,
        ),
    decreases count,
{
    if count == 0 {
        assert(open_after(account.events) =~= Map::<Seq<char>, N>::empty());
    } else {
        let before = (count - 1) as nat;
        let earlier = choose|earlier: Account<N>|
            {
                &&& runs_upto(days, strategy, before, earlier, curve.drop_last())
                &&& #[trigger] day_at(
                    days,
                    strategy,
                    count - 1,
                    earlier,
                    account,
                    curve.last().equity,
                )
            };
        lemma_run_replays(days, strategy, before, earlier, curve.drop_last());
        run_keeps_sound(days, strategy, before, earlier, curve.drop_last());
        lemma_day_replays(
            earlier,
            days[count - 1],
            (count - 1) as usize,
            count == days.len(),
            strategy,
            account,
            curve.last().equity,
            strategy.starting_cash,
        );
    }
}

/// After every event of a log that stands, no more positions are open than there are slots.
pub proof fn slots_suffice_at_every_event<N: Number>(
    events: Seq<TradeEvent<N>>,
    starting_cash: N,
    max_holdings: usize,
    count: int,
)
    requires
        log_stands(events, starting_cash, max_holdings),
        0 <= count <= events.len(),
    ensures
        open_after(events.take(count)).dom().finite(),
        open_after(events.take(count)).dom().len() <= max_holdings,
    decreases count,
{
    if count > 0 {
        slots_suffice_at_every_event(events, starting_cash, max_holdings, count - 1);
        assert(events.take(count).drop_last() =~= events.take(count - 1));
        assert(events.take(count).last() == events[count - 1]);
        assert(may_follow(
            open_after(events.take(count - 1)),
            cash_before(events, count - 1, starting_cash),
            events[count - 1],
            max_holdings,
        ));
    }
}

/// The log of a finished run stands: long only, no ticker bought twice before it is sold, in
/// as many shares as were bought, within the slots and the cash. In the end nothing is open.
pub proof fn run_log_stands<N: Number>(
    days: Seq<TradingDay<N>>,
    strategy: Strategy<N>,
    account: Account<N>,
    curve: Seq<EquityPoint<N>>,
)
    requires
        forall|i: int| 0 <= i < days.len() ==> (#[trigger] days[i]).wf(),
        days.len() <= usize::MAX,
        runs_upto(days, strategy, days.len(), account, curve),
    ensures
        log_stands(account.events, strategy.starting_cash, strategy.buys.max_holdings),
        open_after(account.events) == Map::<Seq<char>, N>::empty(),
{
    lemma_run_replays(days, strategy, days.len(), account, curve);
    run_keeps_sound(days, strategy, days.len(), account, curve);
    assert(open_after(account.events) =~= Map::<Seq<char>, N>::empty());
}

/// What a commission on `amount` is, in reals: the rate's share of it, and at least the floor.
spec fn commission_worth(amount: real) -> real {
    let share = amount * (COMMISSION_PPM as int as real / 1_000_000 as real);
    if share >= MIN_COMMISSION as int as real {
        share
    } else {
        MIN_COMMISSION as int as real
    }
}

proof fn lemma_exact_commission<N: Number>(value: spec_fn(N) -> real, amount: N, fee: N)
    requires
        exact(value),
        commission_is(amount, fee),
    ensures
        value(fee) == commission_worth(value(amount)),
{
    let (rate, share, floor) = choose|rate: N, share: N, floor: N|
        {
            &&& ratio_is(COMMISSION_PPM, 1_000_000, rate)
            &&& product_is(amount, rate, share)
            &&& ratio_is(MIN_COMMISSION, 1, floor)
            &&& larger_is(share, floor, fee)
        };
    assert(value(rate) * (1_000_000u64 as int as real) == COMMISSION_PPM as int as real);
    assert(value(rate) == COMMISSION_PPM as int as real / 1_000_000 as real);
    assert(value(floor) * (1u64 as int as real) == MIN_COMMISSION as int as real);
    assert(value(floor) * (1 as real) == value(floor)) by (nonlinear_arith);
}

proof fn lemma_exact_lots<N: Number>(value: spec_fn(N) -> real, lots: u64, shares: N)
    requires
        exact(value),
        lots_are(lots, shares),
    ensures
        value(shares) == lots as int as real * (LOT as int as real),
{
    let (count, lot) = choose|count: N, lot: N|
        ratio_is(lots, 1, count) && ratio_is(LOT, 1, lot) && product_is(count, lot, shares);
    assert(value(count) * (1u64 as int as real) == lots as int as real);
    assert(value(count) * (1 as real) == value(count)) by (nonlinear_arith);
    assert(value(lot) * (1u64 as int as real) == LOT as int as real);
    assert(value(lot) * (1 as real) == value(lot)) by (nonlinear_arith);
}

/// `shares` is a positive number of whole lots.
pub open spec fn lots_in(shares: real, lots: u64) -> bool {
    lots > 0 && shares == lots as int as real * (LOT as int as real)
}

/// In an exact format a buy that is paid for is of a positive number of whole lots, and leaves
/// no debt.
pub proof fn paid_buys_leave_no_debt<N: Number>(
    value: spec_fn(N) -> real,
    cash: N,
    event: TradeEvent<N>,
)
    requires
        exact(value),
        buy_is_paid(cash, event),
    ensures
        exists|lots: u64| #[trigger] lots_in(value(event.shares), lots),
        value(event.cash_after) >= 0 as real,
{
    let price = event.price;
    let shares = event.shares;
    let (budget, cost, zero) = choose|budget: N, cost: N, zero: N|
        {
            &&& #[trigger] affordable_is(budget, price, cash, shares)
            &&& ratio_is(0, 1, zero)
            &&& #[trigger] reaches_is(zero, shares, false)
            &&& cost_is(price, shares, event.amount, cost)
            &&& #[trigger] difference_is(cash, cost, event.cash_after)
        };
    assert(value(zero) * (1u64 as int as real) == 0u64 as int as real);
    assert(value(zero) * (1 as real) == value(zero)) by (nonlinear_arith);
    assert(value(shares) > 0 as real);
    if lots_are(0, shares) {
        lemma_exact_lots(value, 0, shares);
        assert(0 as real * (LOT as int as real) == 0 as real) by (nonlinear_arith);
        assert(false);
    }
    let (most, lots) = choose|most: u64, lots: u64| #[trigger]
        most_lots(price, cash, most, lots, shares);
    lemma_exact_lots(value, lots, shares);
    assert(lots_in(value(shares), lots));
    let paid = choose|amount: N, sum: N| #[trigger]
        cost_is(price, shares, amount, sum) && reaches_is(cash, sum, true);
    lemma_exact_cost(value, price, shares, paid, (event.amount, cost));
}

proof fn lemma_exact_cost<N: Number>(
    value: spec_fn(N) -> real,
    price: N,
    shares: N,
    a: (N, N),
    b: (N, N),
)
    requires
        exact(value),
        cost_is(price, shares, a.0, a.1),
        cost_is(price, shares, b.0, b.1),
    ensures
        value(a.1) == value(b.1),
{
    let left = choose|fee: N| #[trigger] commission_is(a.0, fee) && sum_is(a.0, fee, a.1);
    let right = choose|fee: N| #[trigger] commission_is(b.0, fee) && sum_is(b.0, fee, b.1);
    lemma_exact_commission(value, a.0, left);
    lemma_exact_commission(value, b.0, right);
}

} // verus!
