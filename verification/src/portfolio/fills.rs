//! Where orders fill, and what they cost, in the reals.
use vstd::prelude::*;

use crate::number::Number;
#[allow(unused_imports)]
use crate::number::{
    ceil_is, difference_is, exact, floor_is, larger_is, product_is, quotient_is, ratio_is,
    rounds_down, rounds_up, sum_is,
};
#[allow(unused_imports)]
use crate::portfolio::orders::{cost_is, lots_are, sale_is, SaleFigures};
#[allow(unused_imports)]
use crate::portfolio::pricing::{
    buy_price_is, commission_is, round_trip_cost_is, sell_price_is, tick_ceil_is, tick_cents,
    tick_floor_is, tick_follows_the_price, tick_size_is, whole_ticks, COMMISSION_PPM, LOT,
    MIN_COMMISSION, SELL_TAX_PERMILLE,
};
#[allow(unused_imports)]
use crate::portfolio::types::{DayBar, Fill, Holding};
#[allow(unused_imports)]
use crate::reals::{lemma_quotient, lemma_ratio, lemma_whole};

verus! {

/// The tick size at `price`.
pub open spec fn tick_at(price: real) -> real {
    tick_cents(price) as real / 100 as real
}

/// `price` is the tick that a sale for `limit` fills at: a whole number of ticks, less than a
/// tick below it, and above it by no more than a billionth of a tick.
pub open spec fn fills_below(price: real, limit: real) -> bool {
    &&& limit - tick_at(limit) < price
    &&& price <= limit + tick_at(limit) / 1_000_000_000 as real
    &&& exists|count: int| price == #[trigger] whole_ticks(count, tick_at(limit))
}

/// `price` is the tick that a buy for `limit` fills at: a whole number of ticks, less than a
/// tick above it, and below it by no more than a billionth of a tick.
pub open spec fn fills_above(price: real, limit: real) -> bool {
    &&& price < limit + tick_at(limit)
    &&& limit - tick_at(limit) / 1_000_000_000 as real <= price
    &&& exists|count: int| price == #[trigger] whole_ticks(count, tick_at(limit))
}

/// In an exact format rounding down to a tick fills a sale.
pub proof fn floored_price_fills_below<N: Number>(value: spec_fn(N) -> real, price: N, floored: N)
    requires
        exact(value),
        tick_floor_is(price, floored),
    ensures
        fills_below(value(floored), value(price)),
{
    let (tick, ticks, slack, lifted, count) = choose|
        tick: N,
        ticks: N,
        slack: N,
        lifted: N,
        count: N,
    |
        {
            &&& tick_size_is(price, tick)
            &&& quotient_is(price, tick, ticks)
            &&& ratio_is(1, 1_000_000_000, slack)
            &&& sum_is(ticks, slack, lifted)
            &&& floor_is(lifted, count)
            &&& product_is(count, tick, floored)
        };
    tick_follows_the_price(value, price, tick);
    lemma_quotient(value, price, tick, ticks);
    lemma_ratio(value, 1, 1_000_000_000, slack);
    let low = choose|whole: int|
        value(count) == whole as real && #[trigger] rounds_down(value(lifted), whole);
    let (size, worth, ratio, share) = (value(tick), value(price), value(ticks), value(slack));
    let n = low as real;
    assert(size == tick_at(worth));
    assert(n * size <= worth + share * size && worth - n * size < size) by (nonlinear_arith)
        requires
            ratio * size == worth,
            n <= ratio + share,
            ratio + share < n + 1 as real,
            share > 0 as real,
            size > 0 as real,
    ;
    assert(share * size == size / 1_000_000_000 as real) by (nonlinear_arith)
        requires
            share == 1 as real / 1_000_000_000 as real,
    ;
    assert(value(floored) == whole_ticks(low, size));
}

/// In an exact format rounding up to a tick fills a buy.
pub proof fn raised_price_fills_above<N: Number>(value: spec_fn(N) -> real, price: N, raised: N)
    requires
        exact(value),
        tick_ceil_is(price, raised),
    ensures
        fills_above(value(raised), value(price)),
{
    let (tick, ticks, slack, lowered, count) = choose|
        tick: N,
        ticks: N,
        slack: N,
        lowered: N,
        count: N,
    |
        {
            &&& tick_size_is(price, tick)
            &&& quotient_is(price, tick, ticks)
            &&& ratio_is(1, 1_000_000_000, slack)
            &&& difference_is(ticks, slack, lowered)
            &&& ceil_is(lowered, count)
            &&& product_is(count, tick, raised)
        };
    tick_follows_the_price(value, price, tick);
    lemma_quotient(value, price, tick, ticks);
    lemma_ratio(value, 1, 1_000_000_000, slack);
    let high = choose|whole: int|
        value(count) == whole as real && #[trigger] rounds_up(value(lowered), whole);
    let (size, worth, ratio, share) = (value(tick), value(price), value(ticks), value(slack));
    let n = high as real;
    assert(size == tick_at(worth));
    assert(worth <= n * size + share * size && n * size - worth < size) by (nonlinear_arith)
        requires
            ratio * size == worth,
            n < ratio - share + 1 as real,
            ratio - share <= n,
            share > 0 as real,
            size > 0 as real,
    ;
    assert(share * size == size / 1_000_000_000 as real) by (nonlinear_arith)
        requires
            share == 1 as real / 1_000_000_000 as real,
    ;
    assert(value(raised) == whole_ticks(high, size));
}

/// In an exact format a buy fills at the tick above the day's low, or above its open.
pub proof fn buys_fill_above_the_bar<N: Number>(
    value: spec_fn(N) -> real,
    bar: DayBar<N>,
    fill: Fill,
    price: N,
)
    requires
        exact(value),
        buy_price_is(bar, fill, price),
    ensures
        fill == Fill::LowHigh ==> fills_above(value(price), value(bar.low)),
        fill == Fill::Open ==> fills_above(value(price), value(bar.open)),
{
    match fill {
        Fill::LowHigh => raised_price_fills_above(value, bar.low, price),
        Fill::Open => raised_price_fills_above(value, bar.open, price),
    }
}

/// In an exact format a sale fills at the tick below the day's high, or below its open.
pub proof fn sales_fill_below_the_bar<N: Number>(
    value: spec_fn(N) -> real,
    bar: DayBar<N>,
    fill: Fill,
    price: N,
)
    requires
        exact(value),
        sell_price_is(bar, fill, price),
    ensures
        fill == Fill::LowHigh ==> fills_below(value(price), value(bar.high)),
        fill == Fill::Open ==> fills_below(value(price), value(bar.open)),
{
    match fill {
        Fill::LowHigh => floored_price_fills_below(value, bar.high, price),
        Fill::Open => floored_price_fills_below(value, bar.open, price),
    }
}

/// The commission on a trade of `amount`: 0.1425% of it, and at least NT$ 20.
pub open spec fn commission_on(amount: real) -> real {
    let share = amount * (1_425 as real / 1_000_000 as real);
    if share >= 20 as real {
        share
    } else {
        20 as real
    }
}

/// In an exact format the commission is 0.1425% of the amount, and at least NT$ 20.
pub proof fn commission_has_a_rate_and_a_floor<N: Number>(
    value: spec_fn(N) -> real,
    amount: N,
    fee: N,
)
    requires
        exact(value),
        commission_is(amount, fee),
    ensures
        value(fee) == commission_on(value(amount)),
{
    let (rate, share, floor) = choose|rate: N, share: N, floor: N|
        {
            &&& ratio_is(COMMISSION_PPM, 1_000_000, rate)
            &&& product_is(amount, rate, share)
            &&& ratio_is(MIN_COMMISSION, 1, floor)
            &&& larger_is(share, floor, fee)
        };
    lemma_ratio(value, COMMISSION_PPM, 1_000_000, rate);
    lemma_whole(value, MIN_COMMISSION, floor);
}

/// In an exact format a round trip costs 0.585%: twice the commission rate and the sell tax.
pub proof fn round_trip_costs_both_legs_and_the_tax<N: Number>(value: spec_fn(N) -> real, cost: N)
    requires
        exact(value),
        round_trip_cost_is(cost),
    ensures
        value(cost) == 585 as real / 100_000 as real,
{
    let (two, rate, legs, tax) = choose|two: N, rate: N, legs: N, tax: N|
        {
            &&& ratio_is(2, 1, two)
            &&& ratio_is(COMMISSION_PPM, 1_000_000, rate)
            &&& product_is(two, rate, legs)
            &&& ratio_is(SELL_TAX_PERMILLE, 1_000, tax)
            &&& sum_is(legs, tax, cost)
        };
    lemma_whole(value, 2, two);
    lemma_ratio(value, COMMISSION_PPM, 1_000_000, rate);
    lemma_ratio(value, SELL_TAX_PERMILLE, 1_000, tax);
    let (l, r) = (value(legs), value(rate));
    assert(l == 2 as real * r);
}

/// What buying `shares` at `price` takes, the commission counted in.
pub open spec fn outlay(price: real, shares: real) -> real {
    price * shares + commission_on(price * shares)
}

/// What selling `shares` at `price` brings, net of the commission and the tax of 0.3%.
pub open spec fn takings(price: real, shares: real) -> real {
    price * shares - commission_on(price * shares) - price * shares * (3 as real / 1_000 as real)
}

/// In an exact format a buy costs its fill value and the commission on it.
pub proof fn buys_cost_their_outlay<N: Number>(
    value: spec_fn(N) -> real,
    price: N,
    shares: N,
    amount: N,
    cost: N,
)
    requires
        exact(value),
        cost_is(price, shares, amount, cost),
    ensures
        value(amount) == value(price) * value(shares),
        value(cost) == outlay(value(price), value(shares)),
{
    let fee = choose|fee: N| #[trigger] commission_is(amount, fee) && sum_is(amount, fee, cost);
    commission_has_a_rate_and_a_floor(value, amount, fee);
}

/// In an exact format a sale brings its fill value less the commission and the tax on it; the
/// profit is that less what the holding cost, and the return is the profit over the cost.
pub proof fn sales_bring_their_takings<N: Number>(
    value: spec_fn(N) -> real,
    cash: N,
    holding: Holding<N>,
    price: N,
    sale: SaleFigures<N>,
)
    requires
        exact(value),
        sale_is(cash, holding, price, sale),
    ensures
        value(sale.amount) == value(price) * value(holding.shares),
        value(sale.proceeds) == takings(value(price), value(holding.shares)),
        value(sale.cash_after) == value(cash) + value(sale.proceeds),
        value(sale.pnl) == value(sale.proceeds) - value(holding.cost),
        value(holding.cost) != 0 as real ==> value(sale.return_pct) * value(holding.cost) == value(
            sale.pnl,
        ),
{
    let (fee, net, rate, tax) = choose|fee: N, net: N, rate: N, tax: N|
        {
            &&& product_is(price, holding.shares, sale.amount)
            &&& commission_is(sale.amount, fee)
            &&& difference_is(sale.amount, fee, net)
            &&& ratio_is(SELL_TAX_PERMILLE, 1_000, rate)
            &&& product_is(sale.amount, rate, tax)
            &&& difference_is(net, tax, sale.proceeds)
            &&& sum_is(cash, sale.proceeds, sale.cash_after)
            &&& difference_is(sale.proceeds, holding.cost, sale.pnl)
            &&& quotient_is(sale.pnl, holding.cost, sale.return_pct)
        };
    commission_has_a_rate_and_a_floor(value, sale.amount, fee);
    lemma_ratio(value, SELL_TAX_PERMILLE, 1_000, rate);
}

/// In an exact format a lot is a thousand shares.
pub proof fn lots_are_thousands<N: Number>(value: spec_fn(N) -> real, lots: u64, shares: N)
    requires
        exact(value),
        lots_are(lots, shares),
    ensures
        value(shares) == lots as int as real * (1_000 as real),
{
    let (count, lot) = choose|count: N, lot: N|
        ratio_is(lots, 1, count) && ratio_is(LOT, 1, lot) && product_is(count, lot, shares);
    lemma_whole(value, lots, count);
    lemma_whole(value, LOT, lot);
}

} // verus!
