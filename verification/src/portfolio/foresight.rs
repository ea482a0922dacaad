//! That no order and no mark of a run depends on a later day.
//!
//! A number format may leave it open which of several results an operation has. What is
//! proved here is of formats that do not.
use vstd::prelude::*;

use crate::number::Number;
#[allow(unused_imports)]
use crate::number::{empty_sum_is, one_result, product_is, ratio_is, reaches_is, sum_is, total_is};
#[allow(unused_imports)]
use crate::portfolio::books::account_sound;
#[allow(unused_imports)]
use crate::portfolio::exits::{
    exit_is, exit_step, exits_upto, ladder_is, sell_phase_is, sell_phase_keeps_sound, ExitRules,
};
#[allow(unused_imports)]
use crate::portfolio::orders::{
    affordable_is, booked, bought, buy_phase_is, buy_step, buys_upto, candidates_are, cost_is,
    covered_is, equity_is, holdings_value_is, lots_are, lots_too_dear, mark_on, marked, most_lots,
    pick_is, picks_are, sale_is, stands_for, strongest_first, target_is, BuyRules, SaleFigures,
};
#[allow(unused_imports)]
use crate::portfolio::pricing::{
    band_is, band_limit, band_tick, below_is, buy_price_is, commission_is, round_trip_cost_is,
    sell_price_is, tick_ceil_is, tick_floor_is, tick_size_is,
};
#[allow(unused_imports)]
use crate::portfolio::ranking::{lists_slot, order_is_unique, Ranked};
#[allow(unused_imports)]
use crate::portfolio::rotation::{
    beaten_is, rotate_phase_is, rotate_step, rotated_upto, rotation_is, stands_for_holding,
    weakest_are,
};
#[allow(unused_imports)]
use crate::portfolio::simulation::{
    day_at, day_is, opened_is, run_keeps_sound, runs_upto, Strategy,
};
#[allow(unused_imports)]
use crate::portfolio::types::{
    bar_of, distinct_bars, distinct_holdings, Account, BacktestConfig, DayBar, EquityPoint,
    ExitReason, Fill, Holding, Position, TickerBar, TradeEvent, TradingDay,
};

verus! {

proof fn lemma_commission<N: Number>(amount: N, a: N, b: N)
    requires
        one_result::<N>(),
        commission_is(amount, a),
        commission_is(amount, b),
    ensures
        a == b,
{
}

proof fn lemma_below<N: Number>(price: N, limit: u64, a: bool, b: bool)
    requires
        one_result::<N>(),
        below_is(price, limit, a),
        below_is(price, limit, b),
    ensures
        a == b,
{
}

proof fn lemma_tick_size<N: Number>(price: N, a: N, b: N)
    requires
        one_result::<N>(),
        tick_size_is(price, a),
        tick_size_is(price, b),
    ensures
        a == b,
{
    let left = choose|band: int| #[trigger]
        band_is(price, band) && ratio_is(band_tick(band), 100, a);
    let right = choose|band: int| #[trigger]
        band_is(price, band) && ratio_is(band_tick(band), 100, b);
    if left < right {
        assert(below_is(price, band_limit(left), false));
        lemma_below(price, band_limit(left), true, false);
    }
    if right < left {
        assert(below_is(price, band_limit(right), false));
        lemma_below(price, band_limit(right), true, false);
    }
}

proof fn lemma_tick_floor<N: Number>(price: N, a: N, b: N)
    requires
        one_result::<N>(),
        tick_floor_is(price, a),
        tick_floor_is(price, b),
    ensures
        a == b,
{
    assert forall|s: N, t: N| #[trigger] tick_size_is(price, s) && #[trigger] tick_size_is(
        price,
        t,
    ) implies s == t by {
        lemma_tick_size(price, s, t);
    }
}

proof fn lemma_tick_ceil<N: Number>(price: N, a: N, b: N)
    requires
        one_result::<N>(),
        tick_ceil_is(price, a),
        tick_ceil_is(price, b),
    ensures
        a == b,
{
    assert forall|s: N, t: N| #[trigger] tick_size_is(price, s) && #[trigger] tick_size_is(
        price,
        t,
    ) implies s == t by {
        lemma_tick_size(price, s, t);
    }
}

proof fn lemma_buy_price<N: Number>(bar: DayBar<N>, fill: Fill, a: N, b: N)
    requires
        one_result::<N>(),
        buy_price_is(bar, fill, a),
        buy_price_is(bar, fill, b),
    ensures
        a == b,
{
    match fill {
        Fill::LowHigh => lemma_tick_ceil(bar.low, a, b),
        Fill::Open => lemma_tick_ceil(bar.open, a, b),
    }
}

proof fn lemma_sell_price<N: Number>(bar: DayBar<N>, fill: Fill, a: N, b: N)
    requires
        one_result::<N>(),
        sell_price_is(bar, fill, a),
        sell_price_is(bar, fill, b),
    ensures
        a == b,
{
    match fill {
        Fill::LowHigh => lemma_tick_floor(bar.high, a, b),
        Fill::Open => lemma_tick_floor(bar.open, a, b),
    }
}

proof fn lemma_sale<N: Number>(
    cash: N,
    holding: Holding<N>,
    price: N,
    a: SaleFigures<N>,
    b: SaleFigures<N>,
)
    requires
        one_result::<N>(),
        sale_is(cash, holding, price, a),
        sale_is(cash, holding, price, b),
    ensures
        a == b,
{
    assert(a.amount == b.amount);
    assert forall|s: N, t: N| #[trigger] commission_is(a.amount, s) && #[trigger] commission_is(
        a.amount,
        t,
    ) implies s == t by {
        lemma_commission(a.amount, s, t);
    }
    assert(a.proceeds == b.proceeds);
    assert(a.pnl == b.pnl);
}

proof fn lemma_booked<N: Number>(
    account: Account<N>,
    remaining: Seq<Position<N>>,
    position: Position<N>,
    date: i32,
    price: N,
    reason: ExitReason,
    a: Account<N>,
    b: Account<N>,
)
    requires
        one_result::<N>(),
        booked(account, remaining, position, date, price, reason, a),
        booked(account, remaining, position, date, price, reason, b),
    ensures
        a == b,
{
    let cash = account.cash;
    let holding = position.holding;
    assert forall|s: SaleFigures<N>, t: SaleFigures<N>| #[trigger]
        sale_is(cash, holding, price, s) && #[trigger] sale_is(cash, holding, price, t) implies s
        == t by {
        lemma_sale(cash, holding, price, s, t);
    }
}

proof fn lemma_total<N: Number>(start: N, values: Seq<N>, a: N, b: N)
    requires
        one_result::<N>(),
        total_is(start, values, a),
        total_is(start, values, b),
    ensures
        a == b,
    decreases values.len(),
{
    if values.len() > 0 {
        let left = choose|partial: N|
            total_is(start, values.drop_last(), partial) && #[trigger] sum_is(
                partial,
                values.last(),
                a,
            );
        let right = choose|partial: N|
            total_is(start, values.drop_last(), partial) && #[trigger] sum_is(
                partial,
                values.last(),
                b,
            );
        lemma_total(start, values.drop_last(), left, right);
    }
}

/// Each of the `values` is what its holding is worth on a day with `bars`.
spec fn worths_are<N: Number>(
    holdings: Seq<Position<N>>,
    bars: Seq<TickerBar<N>>,
    values: Seq<N>,
) -> bool {
    &&& values.len() == holdings.len()
    &&& forall|i: int|
        0 <= i < values.len() ==> product_is(
            mark_on(holdings[i], bars),
            holdings[i].holding.shares,
            #[trigger] values[i],
        )
}

proof fn lemma_holdings_value<N: Number>(
    holdings: Seq<Position<N>>,
    bars: Seq<TickerBar<N>>,
    a: N,
    b: N,
)
    requires
        one_result::<N>(),
        holdings_value_is(holdings, bars, a),
        holdings_value_is(holdings, bars, b),
    ensures
        a == b,
{
    let (start, left) = choose|start: N, values: Seq<N>|
        empty_sum_is(start) && worths_are(holdings, bars, values) && #[trigger] total_is(
            start,
            values,
            a,
        );
    let (other, right) = choose|start: N, values: Seq<N>|
        empty_sum_is(start) && worths_are(holdings, bars, values) && #[trigger] total_is(
            start,
            values,
            b,
        );
    assert forall|i: int| 0 <= i < left.len() implies left[i] == right[i] by {
        assert(product_is(mark_on(holdings[i], bars), holdings[i].holding.shares, left[i]));
        assert(product_is(mark_on(holdings[i], bars), holdings[i].holding.shares, right[i]));
    }
    assert(left =~= right);
    lemma_total(start, left, a, b);
}

proof fn lemma_cost<N: Number>(price: N, shares: N, a: (N, N), b: (N, N))
    requires
        one_result::<N>(),
        cost_is(price, shares, a.0, a.1),
        cost_is(price, shares, b.0, b.1),
    ensures
        a == b,
{
    assert forall|s: N, t: N| #[trigger] commission_is(a.0, s) && #[trigger] commission_is(
        a.0,
        t,
    ) implies s == t by {
        lemma_commission(a.0, s, t);
    }
}

proof fn lemma_covered<N: Number>(price: N, shares: N, cash: N, a: bool, b: bool)
    requires
        one_result::<N>(),
        covered_is(price, shares, cash, a),
        covered_is(price, shares, cash, b),
    ensures
        a == b,
{
    let left = choose|amount: N, cost: N| #[trigger]
        cost_is(price, shares, amount, cost) && reaches_is(cash, cost, a);
    let right = choose|amount: N, cost: N| #[trigger]
        cost_is(price, shares, amount, cost) && reaches_is(cash, cost, b);
    lemma_cost(price, shares, left, right);
}

proof fn lemma_lots<N: Number>(lots: u64, a: N, b: N)
    requires
        one_result::<N>(),
        lots_are(lots, a),
        lots_are(lots, b),
    ensures
        a == b,
{
}

proof fn lemma_most_lots<N: Number>(
    price: N,
    cash: N,
    most: u64,
    left: u64,
    right: u64,
    a: N,
    b: N,
)
    requires
        one_result::<N>(),
        most_lots(price, cash, most, left, a),
        most_lots(price, cash, most, right, b),
        left <= right,
    ensures
        a == b,
{
    if left < right {
        assert(lots_too_dear(price, right, cash));
        let shares = choose|shares: N| #[trigger]
            lots_are(right, shares) && covered_is(price, shares, cash, false);
        lemma_lots(right, shares, b);
        lemma_covered(price, b, cash, true, false);
    }
    lemma_lots(left, a, b);
}

proof fn lemma_affordable<N: Number>(budget: N, price: N, cash: N, a: N, b: N)
    requires
        one_result::<N>(),
        affordable_is(budget, price, cash, a),
        affordable_is(budget, price, cash, b),
    ensures
        a == b,
{
    assert forall|most: u64, left: u64, right: u64, s: N, t: N| #[trigger]
        most_lots(price, cash, most, left, s) && #[trigger] most_lots(
            price,
            cash,
            most,
            right,
            t,
        ) implies s == t by {
        if left <= right {
            lemma_most_lots(price, cash, most, left, right, s, t);
        } else {
            lemma_most_lots(price, cash, most, right, left, t, s);
        }
    }
    assert forall|s: N, t: N| #[trigger] lots_are(0, s) && #[trigger] lots_are(0, t) implies s
        == t by {
        lemma_lots(0, s, t);
    }
}

proof fn lemma_bought<N: Number>(
    account: Account<N>,
    entry: TickerBar<N>,
    date: i32,
    index: usize,
    price: N,
    shares: N,
    a: Account<N>,
    b: Account<N>,
)
    requires
        one_result::<N>(),
        bought(account, entry, date, index, price, shares, a),
        bought(account, entry, date, index, price, shares, b),
    ensures
        a == b,
{
    assert forall|amount: N, cost: N, total: N, sum: N| #[trigger]
        cost_is(price, shares, amount, cost) && #[trigger] cost_is(price, shares, total, sum) implies
        amount == total && cost == sum by {
        lemma_cost(price, shares, (amount, cost), (total, sum));
    }
}

proof fn lemma_buy_step<N: Number>(
    account: Account<N>,
    entry: TickerBar<N>,
    date: i32,
    index: usize,
    rules: BuyRules<N>,
    target: N,
    a: Account<N>,
    b: Account<N>,
)
    requires
        one_result::<N>(),
        buy_step(account, entry, date, index, rules, target, a),
        buy_step(account, entry, date, index, rules, target, b),
    ensures
        a == b,
{
    if account.holdings.len() < rules.max_holdings {
        assert forall|s: N, t: N| #[trigger]
            buy_price_is(entry.bar, rules.fill, s) && #[trigger] buy_price_is(
                entry.bar,
                rules.fill,
                t,
            ) implies s == t by {
            lemma_buy_price(entry.bar, rules.fill, s, t);
        }
        assert forall|budget: N, price: N, s: N, t: N| #[trigger]
            affordable_is(budget, price, account.cash, s) && #[trigger] affordable_is(
                budget,
                price,
                account.cash,
                t,
            ) implies s == t by {
            lemma_affordable(budget, price, account.cash, s, t);
        }
        assert forall|price: N, shares: N, s: Account<N>, t: Account<N>| #[trigger]
            bought(account, entry, date, index, price, shares, s) && #[trigger] bought(
                account,
                entry,
                date,
                index,
                price,
                shares,
                t,
            ) implies s == t by {
            lemma_bought(account, entry, date, index, price, shares, s, t);
        }
    }
}

proof fn lemma_target<N: Number>(
    account: Account<N>,
    bars: Seq<TickerBar<N>>,
    max_holdings: usize,
    a: N,
    b: N,
)
    requires
        one_result::<N>(),
        target_is(account, bars, max_holdings, a),
        target_is(account, bars, max_holdings, b),
    ensures
        a == b,
{
    assert forall|s: N, t: N| #[trigger]
        holdings_value_is(account.holdings, bars, s) && #[trigger] holdings_value_is(
            account.holdings,
            bars,
            t,
        ) implies s == t by {
        lemma_holdings_value(account.holdings, bars, s, t);
    }
}

proof fn lemma_candidates<N: Number>(
    bars: Seq<TickerBar<N>>,
    holdings: Seq<Position<N>>,
    threshold: N,
    a: Seq<Ranked>,
    b: Seq<Ranked>,
)
    requires
        one_result::<N>(),
        distinct_bars(bars),
        candidates_are(bars, holdings, threshold, a),
        candidates_are(bars, holdings, threshold, b),
    ensures
        a.len() == b.len(),
        forall|k: int| 0 <= k < a.len() ==> (#[trigger] a[k]).slot == b[k].slot,
        forall|k: int|
            0 <= k < a.len() ==> (#[trigger] a[k]).slot < bars.len() && a[k].name@
                == bars[a[k].slot as int].ticker@,
{
    let left = choose|picks: Seq<bool>| #[trigger]
        picks_are(bars, holdings, threshold, picks) && strongest_first(bars, picks, a);
    let right = choose|picks: Seq<bool>| #[trigger]
        picks_are(bars, holdings, threshold, picks) && strongest_first(bars, picks, b);
    assert forall|i: int| 0 <= i < left.len() implies left[i] == right[i] by {
        assert(pick_is(bars[i], holdings, threshold, left[i]));
        assert(pick_is(bars[i], holdings, threshold, right[i]));
    }
    assert(left =~= right);
    assert forall|i: int, j: int|
        #![trigger a[i], b[j]]
        0 <= i < a.len() && 0 <= j < b.len() implies if a[i].slot == b[j].slot {
        a[i].key == b[j].key && a[i].name@ == b[j].name@
    } else {
        a[i].name@ != b[j].name@
    } by {
        assert(stands_for(bars, a[i]));
        assert(stands_for(bars, b[j]));
        let p = a[i].slot as int;
        let q = b[j].slot as int;
        if p < q {
            assert(bars[p].ticker@ != bars[q].ticker@);
        }
        if q < p {
            assert(bars[q].ticker@ != bars[p].ticker@);
        }
    }
    assert forall|k: int| 0 <= k < a.len() implies lists_slot(b, (#[trigger] a[k]).slot as int) by {
        assert(stands_for(bars, a[k]));
    }
    assert forall|k: int| 0 <= k < b.len() implies lists_slot(a, (#[trigger] b[k]).slot as int) by {
        assert(stands_for(bars, b[k]));
    }
    order_is_unique(a, b);
    assert forall|k: int| 0 <= k < a.len() implies (#[trigger] a[k]).slot < bars.len() && a[k].name@
        == bars[a[k].slot as int].ticker@ by {
        assert(stands_for(bars, a[k]));
    }
}

proof fn lemma_buys<N: Number>(
    account: Account<N>,
    left: Seq<Ranked>,
    right: Seq<Ranked>,
    day: TradingDay<N>,
    index: usize,
    rules: BuyRules<N>,
    target: N,
    count: nat,
    a: Account<N>,
    b: Account<N>,
)
    requires
        one_result::<N>(),
        count <= left.len(),
        left.len() == right.len(),
        forall|k: int| 0 <= k < left.len() ==> (#[trigger] left[k]).slot == right[k].slot,
        buys_upto(account, left, day, index, rules, target, count, a),
        buys_upto(account, right, day, index, rules, target, count, b),
    ensures
        a == b,
    decreases count,
{
    if count > 0 {
        let before = (count - 1) as nat;
        let entry = day.bars@[left[count - 1].slot as int];
        assert(left[count - 1].slot == right[count - 1].slot);
        let one = choose|earlier: Account<N>|
            {
                &&& buys_upto(account, left, day, index, rules, target, before, earlier)
                &&& #[trigger] buy_step(earlier, entry, day.date, index, rules, target, a)
            };
        let other = choose|earlier: Account<N>|
            {
                &&& buys_upto(account, right, day, index, rules, target, before, earlier)
                &&& #[trigger] buy_step(earlier, entry, day.date, index, rules, target, b)
            };
        lemma_buys(account, left, right, day, index, rules, target, before, one, other);
        lemma_buy_step(one, entry, day.date, index, rules, target, a, b);
    }
}

proof fn lemma_buy_phase<N: Number>(
    account: Account<N>,
    day: TradingDay<N>,
    index: usize,
    rules: BuyRules<N>,
    a: Account<N>,
    b: Account<N>,
)
    requires
        one_result::<N>(),
        day.wf(),
        buy_phase_is(account, day, index, rules, a),
        buy_phase_is(account, day, index, rules, b),
    ensures
        a == b,
{
    let (target, left) = choose|target: N, list: Seq<Ranked>|
        {
            &&& target_is(account, day.bars@, rules.max_holdings, target)
            &&& #[trigger] candidates_are(day.bars@, account.holdings, rules.threshold, list)
            &&& #[trigger] buys_upto(account, list, day, index, rules, target, list.len(), a)
        };
    let (goal, right) = choose|target: N, list: Seq<Ranked>|
        {
            &&& target_is(account, day.bars@, rules.max_holdings, target)
            &&& #[trigger] candidates_are(day.bars@, account.holdings, rules.threshold, list)
            &&& #[trigger] buys_upto(account, list, day, index, rules, target, list.len(), b)
        };
    lemma_target(account, day.bars@, rules.max_holdings, target, goal);
    lemma_candidates(day.bars@, account.holdings, rules.threshold, left, right);
    lemma_buys(account, left, right, day, index, rules, target, left.len(), a, b);
}

proof fn lemma_ladder<N: Number>(
    holding: Holding<N>,
    bar: DayBar<N>,
    index: int,
    is_last: bool,
    config: BacktestConfig<N>,
    a: Option<(N, ExitReason)>,
    b: Option<(N, ExitReason)>,
)
    requires
        one_result::<N>(),
        ladder_is(holding, bar, index, is_last, config, a),
        ladder_is(holding, bar, index, is_last, config, b),
    ensures
        a == b,
{
    assert forall|price: N, s: N, t: N| #[trigger] tick_floor_is(price, s)
        && #[trigger] tick_floor_is(price, t) implies s == t by {
        lemma_tick_floor(price, s, t);
    }
    assert forall|s: N, t: N| #[trigger] sell_price_is(bar, config.fill, s)
        && #[trigger] sell_price_is(bar, config.fill, t) implies s == t by {
        lemma_sell_price(bar, config.fill, s, t);
    }
}

proof fn lemma_exit<N: Number>(
    holding: Holding<N>,
    bar: Option<DayBar<N>>,
    index: int,
    is_last: bool,
    rules: ExitRules<N>,
    a: Option<(N, ExitReason)>,
    b: Option<(N, ExitReason)>,
)
    requires
        one_result::<N>(),
        exit_is(holding, bar, index, is_last, rules, a),
        exit_is(holding, bar, index, is_last, rules, b),
    ensures
        a == b,
{
    if let Some(today) = bar {
        match rules {
            ExitRules::Barriers(config) => {
                lemma_ladder(holding, today, index, is_last, config, a, b);
            },
            ExitRules::Signals(fill) => {
                assert forall|s: N, t: N| #[trigger] sell_price_is(today, fill, s)
                    && #[trigger] sell_price_is(today, fill, t) implies s == t by {
                    lemma_sell_price(today, fill, s, t);
                }
            },
        }
    }
}

proof fn lemma_exit_step<N: Number>(
    account: Account<N>,
    position: Position<N>,
    day: TradingDay<N>,
    index: int,
    is_last: bool,
    rules: ExitRules<N>,
    a: Account<N>,
    b: Account<N>,
)
    requires
        one_result::<N>(),
        exit_step(account, position, day, index, is_last, rules, a),
        exit_step(account, position, day, index, is_last, rules, b),
    ensures
        a == b,
{
    let bar = bar_of(day.bars@, position.ticker@);
    assert forall|s: Option<(N, ExitReason)>, t: Option<(N, ExitReason)>| #[trigger]
        exit_is(position.holding, bar, index, is_last, rules, s) && #[trigger] exit_is(
            position.holding,
            bar,
            index,
            is_last,
            rules,
            t,
        ) implies s == t by {
        lemma_exit(position.holding, bar, index, is_last, rules, s, t);
    }
    assert forall|price: N, reason: ExitReason, s: Account<N>, t: Account<N>| #[trigger]
        booked(account, account.holdings, position, day.date, price, reason, s)
            && #[trigger] booked(
            account,
            account.holdings,
            position,
            day.date,
            price,
            reason,
            t,
        ) implies s == t by {
        lemma_booked(account, account.holdings, position, day.date, price, reason, s, t);
    }
}

proof fn lemma_exits<N: Number>(
    account: Account<N>,
    day: TradingDay<N>,
    index: int,
    is_last: bool,
    rules: ExitRules<N>,
    count: nat,
    a: Account<N>,
    b: Account<N>,
)
    requires
        one_result::<N>(),
        exits_upto(account, day, index, is_last, rules, count, a),
        exits_upto(account, day, index, is_last, rules, count, b),
    ensures
        a == b,
    decreases count,
{
    if count > 0 {
        let before = (count - 1) as nat;
        let position = account.holdings[count - 1];
        let one = choose|earlier: Account<N>|
            {
                &&& exits_upto(account, day, index, is_last, rules, before, earlier)
                &&& #[trigger] exit_step(earlier, position, day, index, is_last, rules, a)
            };
        let other = choose|earlier: Account<N>|
            {
                &&& exits_upto(account, day, index, is_last, rules, before, earlier)
                &&& #[trigger] exit_step(earlier, position, day, index, is_last, rules, b)
            };
        lemma_exits(account, day, index, is_last, rules, before, one, other);
        lemma_exit_step(one, position, day, index, is_last, rules, a, b);
    }
}

proof fn lemma_round_trip<N: Number>(a: N, b: N)
    requires
        one_result::<N>(),
        round_trip_cost_is(a),
        round_trip_cost_is(b),
    ensures
        a == b,
{
}

proof fn lemma_weakest<N: Number>(
    bars: Seq<TickerBar<N>>,
    holdings: Seq<Position<N>>,
    a: Seq<Ranked>,
    b: Seq<Ranked>,
)
    requires
        one_result::<N>(),
        distinct_holdings(holdings),
        weakest_are(bars, holdings, a),
        weakest_are(bars, holdings, b),
    ensures
        a.len() == b.len(),
        forall|k: int| 0 <= k < a.len() ==> (#[trigger] a[k]).name@ == b[k].name@,
{
    assert forall|i: int, j: int|
        #![trigger a[i], b[j]]
        0 <= i < a.len() && 0 <= j < b.len() implies if a[i].slot == b[j].slot {
        a[i].key == b[j].key && a[i].name@ == b[j].name@
    } else {
        a[i].name@ != b[j].name@
    } by {
        assert(stands_for_holding(bars, holdings, a[i]));
        assert(stands_for_holding(bars, holdings, b[j]));
        let p = a[i].slot as int;
        let q = b[j].slot as int;
        if p < q {
            assert(holdings[p].ticker@ != holdings[q].ticker@);
        }
        if q < p {
            assert(holdings[q].ticker@ != holdings[p].ticker@);
        }
    }
    assert forall|k: int| 0 <= k < a.len() implies lists_slot(b, (#[trigger] a[k]).slot as int) by {
        assert(stands_for_holding(bars, holdings, a[k]));
    }
    assert forall|k: int| 0 <= k < b.len() implies lists_slot(a, (#[trigger] b[k]).slot as int) by {
        assert(stands_for_holding(bars, holdings, b[k]));
    }
    order_is_unique(a, b);
    assert forall|k: int| 0 <= k < a.len() implies (#[trigger] a[k]).name@ == b[k].name@ by {
        assert(a[k].slot == b[k].slot);
    }
}

proof fn lemma_beaten<N: Number>(
    bars: Seq<TickerBar<N>>,
    strong: Ranked,
    stronger: Ranked,
    weak: Ranked,
    weaker: Ranked,
    hurdle: N,
    a: bool,
    b: bool,
)
    requires
        one_result::<N>(),
        strong.slot == stronger.slot,
        weak.name@ == weaker.name@,
        beaten_is(bars, strong, weak, hurdle, a),
        beaten_is(bars, stronger, weaker, hurdle, b),
    ensures
        a == b,
{
}

proof fn lemma_rotate_step<N: Number>(
    account: Account<N>,
    ticker: Seq<char>,
    day: TradingDay<N>,
    fill: Fill,
    a: Account<N>,
    b: Account<N>,
)
    requires
        one_result::<N>(),
        distinct_holdings(account.holdings),
        rotate_step(account, ticker, day, fill, a),
        rotate_step(account, ticker, day, fill, b),
    ensures
        a == b,
        distinct_holdings(a.holdings),
{
    let (at, price) = choose|at: int, price: N|
        {
            &&& 0 <= at < account.holdings.len()
            &&& account.holdings[at].ticker@ == ticker
            &&& bar_of(day.bars@, ticker) matches Some(bar) && sell_price_is(bar, fill, price)
            &&& #[trigger] booked(
                account,
                account.holdings.remove(at),
                account.holdings[at],
                day.date,
                price,
                ExitReason::Rotate,
                a,
            )
        };
    let (place, worth) = choose|at: int, price: N|
        {
            &&& 0 <= at < account.holdings.len()
            &&& account.holdings[at].ticker@ == ticker
            &&& bar_of(day.bars@, ticker) matches Some(bar) && sell_price_is(bar, fill, price)
            &&& #[trigger] booked(
                account,
                account.holdings.remove(at),
                account.holdings[at],
                day.date,
                price,
                ExitReason::Rotate,
                b,
            )
        };
    if at < place {
        assert(account.holdings[at].ticker@ != account.holdings[place].ticker@);
    }
    if place < at {
        assert(account.holdings[place].ticker@ != account.holdings[at].ticker@);
    }
    lemma_sell_price(bar_of(day.bars@, ticker)->0, fill, price, worth);
    let remaining = account.holdings.remove(at);
    let position = account.holdings[at];
    lemma_booked(
        account,
        remaining,
        position,
        day.date,
        price,
        ExitReason::Rotate,
        a,
        b,
    );
    assert forall|i: int, j: int|
        #![trigger remaining[i], remaining[j]]
        0 <= i < j < remaining.len() implies remaining[i].ticker@ != remaining[j].ticker@ by {
        let p = if i < at {
            i
        } else {
            i + 1
        };
        let q = if j < at {
            j
        } else {
            j + 1
        };
        assert(account.holdings[p].ticker@ != account.holdings[q].ticker@);
    }
}

proof fn lemma_rotated<N: Number>(
    account: Account<N>,
    left: Seq<Ranked>,
    right: Seq<Ranked>,
    day: TradingDay<N>,
    fill: Fill,
    count: nat,
    a: Account<N>,
    b: Account<N>,
)
    requires
        one_result::<N>(),
        distinct_holdings(account.holdings),
        count <= left.len(),
        left.len() == right.len(),
        forall|k: int| 0 <= k < left.len() ==> (#[trigger] left[k]).name@ == right[k].name@,
        rotated_upto(account, left, day, fill, count, a),
        rotated_upto(account, right, day, fill, count, b),
    ensures
        a == b,
        distinct_holdings(a.holdings),
    decreases count,
{
    if count > 0 {
        let before = (count - 1) as nat;
        let ticker = left[count - 1].name@;
        assert(left[count - 1].name@ == right[count - 1].name@);
        let one = choose|earlier: Account<N>|
            {
                &&& rotated_upto(account, left, day, fill, before, earlier)
                &&& #[trigger] rotate_step(earlier, ticker, day, fill, a)
            };
        let other = choose|earlier: Account<N>|
            {
                &&& rotated_upto(account, right, day, fill, before, earlier)
                &&& #[trigger] rotate_step(earlier, ticker, day, fill, b)
            };
        lemma_rotated(account, left, right, day, fill, before, one, other);
        lemma_rotate_step(one, ticker, day, fill, a, b);
    }
}

proof fn lemma_rotate_phase<N: Number>(
    account: Account<N>,
    day: TradingDay<N>,
    rules: BuyRules<N>,
    a: Account<N>,
    b: Account<N>,
)
    requires
        one_result::<N>(),
        day.wf(),
        distinct_holdings(account.holdings),
        rotate_phase_is(account, day, rules, a),
        rotate_phase_is(account, day, rules, b),
    ensures
        a == b,
{
    if account.holdings.len() >= rules.max_holdings {
        let bars = day.bars@;
        let (strong, weak, hurdle, count) = choose|
            challengers: Seq<Ranked>,
            held: Seq<Ranked>,
            hurdle: N,
            count: nat,
        |
            {
                &&& candidates_are(bars, account.holdings, rules.threshold, challengers)
                &&& weakest_are(bars, account.holdings, held)
                &&& round_trip_cost_is(hurdle)
                &&& #[trigger] rotation_is(bars, challengers, held, hurdle, count)
                &&& #[trigger] rotated_upto(account, held, day, rules.fill, count, a)
            };
        let (stronger, weaker, bar, total) = choose|
            challengers: Seq<Ranked>,
            held: Seq<Ranked>,
            hurdle: N,
            count: nat,
        |
            {
                &&& candidates_are(bars, account.holdings, rules.threshold, challengers)
                &&& weakest_are(bars, account.holdings, held)
                &&& round_trip_cost_is(hurdle)
                &&& #[trigger] rotation_is(bars, challengers, held, hurdle, count)
                &&& #[trigger] rotated_upto(account, held, day, rules.fill, count, b)
            };
        lemma_candidates(bars, account.holdings, rules.threshold, strong, stronger);
        lemma_weakest(bars, account.holdings, weak, weaker);
        lemma_round_trip(hurdle, bar);
        if count < total {
            let k = count as int;
            assert(strong[k].slot == stronger[k].slot);
            assert(weak[k].name@ == weaker[k].name@);
            assert(beaten_is(bars, stronger[k], weaker[k], hurdle, true));
            lemma_beaten(bars, strong[k], stronger[k], weak[k], weaker[k], hurdle, false, true);
        }
        if total < count {
            let k = total as int;
            assert(strong[k].slot == stronger[k].slot);
            assert(weak[k].name@ == weaker[k].name@);
            assert(beaten_is(bars, strong[k], weak[k], hurdle, true));
            lemma_beaten(bars, strong[k], stronger[k], weak[k], weaker[k], hurdle, true, false);
        }
        lemma_rotated(account, weak, weaker, day, rules.fill, count, a, b);
    }
}

proof fn lemma_opened<N: Number>(
    sold: Account<N>,
    day: TradingDay<N>,
    index: usize,
    is_last: bool,
    strategy: Strategy<N>,
    a: Account<N>,
    b: Account<N>,
)
    requires
        one_result::<N>(),
        day.wf(),
        distinct_holdings(sold.holdings),
        opened_is(sold, day, index, is_last, strategy, a),
        opened_is(sold, day, index, is_last, strategy, b),
    ensures
        a == b,
{
    if !is_last {
        let rotated = choose|rotated: Account<N>|
            {
                &&& (if strategy.rotates {
                    rotate_phase_is(sold, day, strategy.buys, rotated)
                } else {
                    rotated == sold
                })
                &&& #[trigger] buy_phase_is(rotated, day, index, strategy.buys, a)
            };
        let turned = choose|rotated: Account<N>|
            {
                &&& (if strategy.rotates {
                    rotate_phase_is(sold, day, strategy.buys, rotated)
                } else {
                    rotated == sold
                })
                &&& #[trigger] buy_phase_is(rotated, day, index, strategy.buys, b)
            };
        if strategy.rotates {
            lemma_rotate_phase(sold, day, strategy.buys, rotated, turned);
        }
        lemma_buy_phase(rotated, day, index, strategy.buys, a, b);
    }
}

/// A day ends in one way: the account that it sets out from fixes the one that it leaves and
/// what that is worth.
pub proof fn day_ends_in_one_way<N: Number>(
    account: Account<N>,
    day: TradingDay<N>,
    index: usize,
    is_last: bool,
    strategy: Strategy<N>,
    starting_cash: N,
    a: (Account<N>, N),
    b: (Account<N>, N),
)
    requires
        one_result::<N>(),
        day.wf(),
        account_sound(account, index as int, strategy.buys.max_holdings, starting_cash),
        day_is(account, day, index, is_last, strategy, a.0, a.1),
        day_is(account, day, index, is_last, strategy, b.0, b.1),
    ensures
        a == b,
{
    let exits = strategy.exits;
    let (sold, filled) = choose|sold: Account<N>, filled: Account<N>|
        {
            &&& sell_phase_is(account, day, index as int, is_last, exits, sold)
            &&& #[trigger] opened_is(sold, day, index, is_last, strategy, filled)
            &&& a.0 == (Account { holdings: marked(filled.holdings, day.bars@), ..filled })
            &&& equity_is(a.0, a.1)
        };
    let (closed, opened) = choose|sold: Account<N>, filled: Account<N>|
        {
            &&& sell_phase_is(account, day, index as int, is_last, exits, sold)
            &&& #[trigger] opened_is(sold, day, index, is_last, strategy, filled)
            &&& b.0 == (Account { holdings: marked(filled.holdings, day.bars@), ..filled })
            &&& equity_is(b.0, b.1)
        };
    lemma_exits(account, day, index as int, is_last, exits, account.holdings.len(), sold, closed);
    sell_phase_keeps_sound(
        account,
        day,
        index as int,
        is_last,
        exits,
        sold,
        strategy.buys.max_holdings,
        starting_cash,
    );
    lemma_opened(sold, day, index, is_last, strategy, filled, opened);
    assert forall|s: N, t: N| #[trigger]
        holdings_value_is(a.0.holdings, Seq::empty(), s) && #[trigger] holdings_value_is(
            a.0.holdings,
            Seq::empty(),
            t,
        ) implies s == t by {
        lemma_holdings_value(a.0.holdings, Seq::empty(), s, t);
    }
}

/// `shared` days in front are the same in both runs, and neither run ends with them.
pub open spec fn share_days<N>(
    first: Seq<TradingDay<N>>,
    second: Seq<TradingDay<N>>,
    shared: nat,
) -> bool {
    &&& shared < first.len() <= usize::MAX
    &&& shared < second.len() <= usize::MAX
    &&& forall|i: int| 0 <= i < shared ==> #[trigger] first[i] == second[i]
    &&& forall|i: int| 0 <= i < first.len() ==> (#[trigger] first[i]).wf()
    &&& forall|i: int| 0 <= i < second.len() ==> (#[trigger] second[i]).wf()
}

proof fn lemma_runs<N: Number>(
    first: Seq<TradingDay<N>>,
    second: Seq<TradingDay<N>>,
    shared: nat,
    strategy: Strategy<N>,
    count: nat,
    a: (Account<N>, Seq<EquityPoint<N>>),
    b: (Account<N>, Seq<EquityPoint<N>>),
)
    requires
        one_result::<N>(),
        share_days(first, second, shared),
        count <= shared,
        runs_upto(first, strategy, count, a.0, a.1),
        runs_upto(second, strategy, count, b.0, b.1),
    ensures
        a == b,
    decreases count,
{
    if count == 0 {
        assert(a.1 =~= b.1);
    } else {
        let before = (count - 1) as nat;
        let one = choose|earlier: Account<N>|
            {
                &&& runs_upto(first, strategy, before, earlier, a.1.drop_last())
                &&& #[trigger] day_at(first, strategy, count - 1, earlier, a.0, a.1.last().equity)
            };
        let other = choose|earlier: Account<N>|
            {
                &&& runs_upto(second, strategy, before, earlier, b.1.drop_last())
                &&& #[trigger] day_at(second, strategy, count - 1, earlier, b.0, b.1.last().equity)
            };
        lemma_runs(
            first,
            second,
            shared,
            strategy,
            before,
            (one, a.1.drop_last()),
            (other, b.1.drop_last()),
        );
        run_keeps_sound(first, strategy, before, one, a.1.drop_last());
        assert(first[count - 1] == second[count - 1]);
        day_ends_in_one_way(
            one,
            first[count - 1],
            (count - 1) as usize,
            false,
            strategy,
            strategy.starting_cash,
            (a.0, a.1.last().equity),
            (b.0, b.1.last().equity),
        );
        assert(a.1.last() == b.1.last());
        assert(a.1 =~= a.1.drop_last().push(a.1.last()));
        assert(b.1 =~= b.1.drop_last().push(b.1.last()));
    }
}

/// `after` is the log `before` with nothing but events dated `date` behind it.
pub open spec fn log_grows<N>(
    before: Seq<TradeEvent<N>>,
    after: Seq<TradeEvent<N>>,
    date: i32,
) -> bool {
    &&& before.len() <= after.len()
    &&& after.take(before.len() as int) == before
    &&& forall|i: int| before.len() <= i < after.len() ==> (#[trigger] after[i]).date == date
}

proof fn lemma_log_joined<N>(
    before: Seq<TradeEvent<N>>,
    middle: Seq<TradeEvent<N>>,
    after: Seq<TradeEvent<N>>,
    date: i32,
)
    requires
        log_grows(before, middle, date),
        log_grows(middle, after, date),
    ensures
        log_grows(before, after, date),
{
    assert(after.take(before.len() as int) =~= middle.take(before.len() as int));
    assert forall|i: int| before.len() <= i < after.len() implies (#[trigger] after[i]).date
        == date by {
        if i < middle.len() {
            assert(after.take(middle.len() as int)[i] == after[i]);
            assert(middle[i].date == date);
        }
    }
}

proof fn lemma_log_pushed<N>(before: Seq<TradeEvent<N>>, after: Seq<TradeEvent<N>>, date: i32)
    requires
        after.len() == before.len() + 1,
        after == before.push(after.last()),
        after.last().date == date,
    ensures
        log_grows(before, after, date),
{
    assert(after.take(before.len() as int) =~= before);
}

proof fn lemma_exits_log<N: Number>(
    account: Account<N>,
    day: TradingDay<N>,
    index: int,
    is_last: bool,
    rules: ExitRules<N>,
    count: nat,
    next: Account<N>,
)
    requires
        exits_upto(account, day, index, is_last, rules, count, next),
    ensures
        log_grows(account.events, next.events, day.date),
    decreases count,
{
    if count == 0 {
        assert(next.events.take(account.events.len() as int) =~= account.events);
    } else {
        let before = (count - 1) as nat;
        let position = account.holdings[count - 1];
        let earlier = choose|earlier: Account<N>|
            {
                &&& exits_upto(account, day, index, is_last, rules, before, earlier)
                &&& #[trigger] exit_step(earlier, position, day, index, is_last, rules, next)
            };
        lemma_exits_log(account, day, index, is_last, rules, before, earlier);
        if next.events != earlier.events {
            lemma_log_pushed(earlier.events, next.events, day.date);
            lemma_log_joined(account.events, earlier.events, next.events, day.date);
        }
    }
}

proof fn lemma_rotated_log<N: Number>(
    account: Account<N>,
    held: Seq<Ranked>,
    day: TradingDay<N>,
    fill: Fill,
    count: nat,
    next: Account<N>,
)
    requires
        rotated_upto(account, held, day, fill, count, next),
    ensures
        log_grows(account.events, next.events, day.date),
    decreases count,
{
    if count == 0 {
        assert(next.events.take(account.events.len() as int) =~= account.events);
    } else {
        let before = (count - 1) as nat;
        let earlier = choose|earlier: Account<N>|
            {
                &&& rotated_upto(account, held, day, fill, before, earlier)
                &&& #[trigger] rotate_step(earlier, held[count - 1].name@, day, fill, next)
            };
        lemma_rotated_log(account, held, day, fill, before, earlier);
        lemma_log_pushed(earlier.events, next.events, day.date);
        lemma_log_joined(account.events, earlier.events, next.events, day.date);
    }
}

proof fn lemma_buys_log<N: Number>(
    account: Account<N>,
    list: Seq<Ranked>,
    day: TradingDay<N>,
    index: usize,
    rules: BuyRules<N>,
    target: N,
    count: nat,
    next: Account<N>,
)
    requires
        buys_upto(account, list, day, index, rules, target, count, next),
    ensures
        log_grows(account.events, next.events, day.date),
    decreases count,
{
    if count == 0 {
        assert(next.events.take(account.events.len() as int) =~= account.events);
    } else {
        let before = (count - 1) as nat;
        let entry = day.bars@[list[count - 1].slot as int];
        let earlier = choose|earlier: Account<N>|
            {
                &&& buys_upto(account, list, day, index, rules, target, before, earlier)
                &&& #[trigger] buy_step(earlier, entry, day.date, index, rules, target, next)
            };
        lemma_buys_log(account, list, day, index, rules, target, before, earlier);
        if next.events != earlier.events {
            lemma_log_pushed(earlier.events, next.events, day.date);
            lemma_log_joined(account.events, earlier.events, next.events, day.date);
        }
    }
}

/// A day only adds to the log, and what it adds is dated as the day.
pub proof fn day_adds_to_the_log<N: Number>(
    account: Account<N>,
    day: TradingDay<N>,
    index: usize,
    is_last: bool,
    strategy: Strategy<N>,
    next: Account<N>,
    worth: N,
)
    requires
        day_is(account, day, index, is_last, strategy, next, worth),
    ensures
        log_grows(account.events, next.events, day.date),
{
    let exits = strategy.exits;
    let rules = strategy.buys;
    let (sold, filled) = choose|sold: Account<N>, filled: Account<N>|
        {
            &&& sell_phase_is(account, day, index as int, is_last, exits, sold)
            &&& #[trigger] opened_is(sold, day, index, is_last, strategy, filled)
            &&& next == (Account { holdings: marked(filled.holdings, day.bars@), ..filled })
            &&& equity_is(next, worth)
        };
    lemma_exits_log(account, day, index as int, is_last, exits, account.holdings.len(), sold);
    if !is_last {
        let rotated = choose|rotated: Account<N>|
            {
                &&& (if strategy.rotates {
                    rotate_phase_is(sold, day, rules, rotated)
                } else {
                    rotated == sold
                })
                &&& #[trigger] buy_phase_is(rotated, day, index, rules, filled)
            };
        if rotated != sold {
            let (held, count) = choose|held: Seq<Ranked>, count: nat| #[trigger]
                rotated_upto(sold, held, day, rules.fill, count, rotated);
            lemma_rotated_log(sold, held, day, rules.fill, count, rotated);
            lemma_log_joined(account.events, sold.events, rotated.events, day.date);
        }
        let (list, target) = choose|list: Seq<Ranked>, target: N| #[trigger]
            buys_upto(rotated, list, day, index, rules, target, list.len(), filled);
        lemma_buys_log(rotated, list, day, index, rules, target, list.len(), filled);
        lemma_log_joined(account.events, rotated.events, filled.events, day.date);
    }
}

/// The event is dated as one of the days from `from` up to `to`.
pub open spec fn dated_within<N>(
    event: TradeEvent<N>,
    days: Seq<TradingDay<N>>,
    from: int,
    to: int,
) -> bool {
    exists|j: int| from <= j < to && (#[trigger] days[j]).date == event.date
}

/// `log` is what `logged` is after the days from `from` up to `to`: only events of those days
/// are behind it.
pub open spec fn log_since<N>(
    days: Seq<TradingDay<N>>,
    from: int,
    to: int,
    logged: Seq<TradeEvent<N>>,
    log: Seq<TradeEvent<N>>,
) -> bool {
    &&& logged.len() <= log.len()
    &&& log.take(logged.len() as int) == logged
    &&& forall|i: int|
        logged.len() <= i < log.len() ==> dated_within(#[trigger] log[i], days, from, to)
}

/// `account` is where the run stood after the first `reached` days, before `log` was complete.
pub open spec fn stood_at<N: Number>(
    days: Seq<TradingDay<N>>,
    strategy: Strategy<N>,
    reached: nat,
    count: nat,
    curve: Seq<EquityPoint<N>>,
    log: Seq<TradeEvent<N>>,
    account: Account<N>,
) -> bool {
    &&& runs_upto(days, strategy, reached, account, curve.take(reached as int))
    &&& log_since(days, reached as int, count as int, account.events, log)
}

/// A run that stands after `count` days stood somewhere after each number of days before.
proof fn lemma_stood<N: Number>(
    days: Seq<TradingDay<N>>,
    strategy: Strategy<N>,
    reached: nat,
    count: nat,
    account: Account<N>,
    curve: Seq<EquityPoint<N>>,
)
    requires
        reached <= count <= days.len(),
        curve.len() == count,
        runs_upto(days, strategy, count, account, curve),
    ensures
        exists|stood: Account<N>|
            stood_at(days, strategy, reached, count, curve, account.events, stood),
    decreases count,
{
    if reached == count {
        assert(curve.take(reached as int) =~= curve);
        assert(account.events.take(account.events.len() as int) =~= account.events);
        assert(stood_at(days, strategy, reached, count, curve, account.events, account));
    } else {
        let before = (count - 1) as nat;
        let day = days[count - 1];
        let earlier = choose|earlier: Account<N>|
            {
                &&& runs_upto(days, strategy, before, earlier, curve.drop_last())
                &&& #[trigger] day_at(
                    days,
                    strategy,
                    count - 1,
                    earlier,
                    account,
                    curve.last().equity,
                )
            };
        lemma_stood(days, strategy, reached, before, earlier, curve.drop_last());
        let stood = choose|stood: Account<N>|
            stood_at(days, strategy, reached, before, curve.drop_last(), earlier.events, stood);
        day_adds_to_the_log(
            earlier,
            day,
            (count - 1) as usize,
            count == days.len(),
            strategy,
            account,
            curve.last().equity,
        );
        assert(curve.drop_last().take(reached as int) =~= curve.take(reached as int));
        let log = account.events;
        let middle = earlier.events;
        let logged = stood.events;
        assert(log.take(logged.len() as int) =~= middle.take(logged.len() as int));
        assert forall|i: int| logged.len() <= i < log.len() implies dated_within(
            #[trigger] log[i],
            days,
            reached as int,
            count as int,
        ) by {
            if i < middle.len() {
                assert(log.take(middle.len() as int)[i] == log[i]);
                assert(dated_within(middle[i], days, reached as int, before as int));
                let j = choose|j: int|
                    reached <= j < before && (#[trigger] days[j]).date == middle[i].date;
                assert(days[j].date == log[i].date);
            } else {
                assert(days[count - 1].date == log[i].date);
            }
        }
        assert(stood_at(days, strategy, reached, count, curve, log, stood));
    }
}

/// The first `count` events of both logs are the same, they are those of the shared days, and
/// all others are of later days.
pub open spec fn logs_agree<N>(
    first: Seq<TradingDay<N>>,
    second: Seq<TradingDay<N>>,
    shared: nat,
    left: Seq<TradeEvent<N>>,
    right: Seq<TradeEvent<N>>,
    count: nat,
) -> bool {
    &&& count <= left.len()
    &&& count <= right.len()
    &&& left.take(count as int) == right.take(count as int)
    &&& forall|i: int| 0 <= i < count ==> dated_within(#[trigger] left[i], first, 0, shared as int)
    &&& forall|i: int|
        count <= i < left.len() ==> dated_within(
            #[trigger] left[i],
            first,
            shared as int,
            first.len() as int,
        )
    &&& forall|i: int|
        count <= i < right.len() ==> dated_within(
            #[trigger] right[i],
            second,
            shared as int,
            second.len() as int,
        )
}

/// No order and no mark depends on a later day: runs over days that begin alike agree on the
/// equity curve of those days and on every event of them.
pub proof fn runs_agree_on_shared_days<N: Number>(
    first: Seq<TradingDay<N>>,
    second: Seq<TradingDay<N>>,
    shared: nat,
    strategy: Strategy<N>,
    a: (Account<N>, Seq<EquityPoint<N>>),
    b: (Account<N>, Seq<EquityPoint<N>>),
)
    requires
        one_result::<N>(),
        share_days(first, second, shared),
        runs_upto(first, strategy, first.len(), a.0, a.1),
        runs_upto(second, strategy, second.len(), b.0, b.1),
    ensures
        a.1.len() == first.len(),
        b.1.len() == second.len(),
        a.1.take(shared as int) == b.1.take(shared as int),
        exists|count: nat|
            logs_agree(first, second, shared, a.0.events, b.0.events, count),
{
    run_keeps_sound(first, strategy, first.len(), a.0, a.1);
    run_keeps_sound(second, strategy, second.len(), b.0, b.1);
    lemma_stood(first, strategy, shared, first.len(), a.0, a.1);
    lemma_stood(second, strategy, shared, second.len(), b.0, b.1);
    let left = choose|stood: Account<N>|
        stood_at(first, strategy, shared, first.len(), a.1, a.0.events, stood);
    let right = choose|stood: Account<N>|
        stood_at(second, strategy, shared, second.len(), b.1, b.0.events, stood);
    lemma_runs(
        first,
        second,
        shared,
        strategy,
        shared,
        (left, a.1.take(shared as int)),
        (right, b.1.take(shared as int)),
    );
    lemma_stood(first, strategy, 0, shared, left, a.1.take(shared as int));
    let start = choose|stood: Account<N>|
        stood_at(first, strategy, 0, shared, a.1.take(shared as int), left.events, stood);
    let count = left.events.len();
    assert forall|i: int| 0 <= i < count implies dated_within(
        #[trigger] a.0.events[i],
        first,
        0,
        shared as int,
    ) by {
        assert(a.0.events.take(count as int)[i] == a.0.events[i]);
        assert(dated_within(left.events[i], first, 0, shared as int));
    }
    assert(logs_agree(first, second, shared, a.0.events, b.0.events, count));
}

} // verus!
