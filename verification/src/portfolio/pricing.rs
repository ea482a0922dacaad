//! Fees, legal ticks, and the prices orders fill at.
use vstd::prelude::*;

use crate::number::Number;
#[allow(unused_imports)]
use crate::number::{
    ceil_is, difference_is, exact, exceeds_is, floor_is, larger_is, product_is, quotient_is,
    ratio_is, rounds_down, rounds_up, sum_is,
};
use crate::portfolio::types::{DayBar, Fill};

verus! {

/// Shares per Taiwan lot.
pub const LOT: u64 = 1_000;

/// Commission charged on each buy and sell, in millionths of the amount.
pub const COMMISSION_PPM: u64 = 1_425;

/// Minimum commission per transaction.
pub const MIN_COMMISSION: u64 = 20;

/// Securities transaction tax, charged on sells only, in thousandths of the amount.
pub const SELL_TAX_PERMILLE: u64 = 3;

/// `fee` is the commission on `amount`: 0.1425% of it, and at least the floor.
pub open spec fn commission_is<N: Number>(amount: N, fee: N) -> bool {
    exists|rate: N, share: N, floor: N|
        {
            &&& ratio_is(COMMISSION_PPM, 1_000_000, rate)
            &&& product_is(amount, rate, share)
            &&& ratio_is(MIN_COMMISSION, 1, floor)
            &&& larger_is(share, floor, fee)
        }
}

/// Commission on a trade of `amount`, with the per-transaction floor.
pub fn commission<N: Number>(amount: N) -> (fee: N)
    ensures
        commission_is(amount, fee),
{
    let share = amount.times(N::from_ratio(COMMISSION_PPM, 1_000_000));
    share.larger(N::from_ratio(MIN_COMMISSION, 1))
}

/// `cost` is the fraction that a round trip costs: commission on both legs and the sell
/// tax.
pub open spec fn round_trip_cost_is<N: Number>(cost: N) -> bool {
    exists|two: N, rate: N, legs: N, tax: N|
        {
            &&& ratio_is(2, 1, two)
            &&& ratio_is(COMMISSION_PPM, 1_000_000, rate)
            &&& product_is(two, rate, legs)
            &&& ratio_is(SELL_TAX_PERMILLE, 1_000, tax)
            &&& sum_is(legs, tax, cost)
        }
}

/// Round-trip cost as a fraction: commission on both legs plus the sell tax. The edge
/// gain a rotation must clear to be worth the churn.
pub fn round_trip_cost<N: Number>() -> (cost: N)
    ensures
        round_trip_cost_is(cost),
{
    let legs = N::from_ratio(2, 1).times(N::from_ratio(COMMISSION_PPM, 1_000_000));
    legs.plus(N::from_ratio(SELL_TAX_PERMILLE, 1_000))
}

/// Upper end of the price bands below the last one, in NT$.
pub open spec fn band_limit(band: int) -> u64 {
    if band == 0 {
        10
    } else if band == 1 {
        50
    } else if band == 2 {
        100
    } else if band == 3 {
        500
    } else {
        1_000
    }
}

/// Tick of each price band, in hundredths of NT$.
pub open spec fn band_tick(band: int) -> u64 {
    if band == 0 {
        1
    } else if band == 1 {
        5
    } else if band == 2 {
        10
    } else if band == 3 {
        50
    } else if band == 4 {
        100
    } else {
        500
    }
}

/// A result of the comparison "`price` is below `limit`" is `below`.
pub open spec fn below_is<N: Number>(price: N, limit: u64, below: bool) -> bool {
    exists|bound: N| ratio_is(limit, 1, bound) && exceeds_is(bound, price, below)
}

/// `price` lies in `band`: below its upper end, and not below that of any band before it.
pub open spec fn band_is<N: Number>(price: N, band: int) -> bool {
    &&& 0 <= band <= 5
    &&& forall|earlier: int|
        0 <= earlier < band ==> below_is(price, #[trigger] band_limit(earlier), false)
    &&& band < 5 ==> below_is(price, band_limit(band), true)
}

/// `tick` is the tick size at `price`, by the platform's price bands.
pub open spec fn tick_size_is<N: Number>(price: N, tick: N) -> bool {
    exists|band: int| #[trigger] band_is(price, band) && ratio_is(band_tick(band), 100, tick)
}

/// Whether `price` is below the whole number `limit`.
fn is_below<N: Number>(price: N, limit: u64) -> (below: bool)
    ensures
        below_is(price, limit, below),
{
    N::from_ratio(limit, 1).exceeds(price)
}

/// Tick size in NT$ for a price, by the platform's price bands.
pub fn tick_size<N: Number>(price: N) -> (tick: N)
    ensures
        tick_size_is(price, tick),
{
    if is_below(price, 10) {
        assert(band_is(price, 0));
        N::from_ratio(1, 100)
    } else if is_below(price, 50) {
        assert(band_is(price, 1));
        N::from_ratio(5, 100)
    } else if is_below(price, 100) {
        assert(band_is(price, 2));
        N::from_ratio(10, 100)
    } else if is_below(price, 500) {
        assert(band_is(price, 3));
        N::from_ratio(50, 100)
    } else if is_below(price, 1_000) {
        assert(band_is(price, 4));
        N::from_ratio(100, 100)
    } else {
        assert(band_is(price, 5));
        N::from_ratio(500, 100)
    }
}

/// `floored` is the largest legal tick at or below `price`, a billionth of a tick being
/// forgiven.
pub open spec fn tick_floor_is<N: Number>(price: N, floored: N) -> bool {
    exists|tick: N, ticks: N, slack: N, lifted: N, count: N|
        {
            &&& tick_size_is(price, tick)
            &&& quotient_is(price, tick, ticks)
            &&& ratio_is(1, 1_000_000_000, slack)
            &&& sum_is(ticks, slack, lifted)
            &&& floor_is(lifted, count)
            &&& product_is(count, tick, floored)
        }
}

/// Largest legal tick at or below `price`; the slack absorbs rounding error.
pub fn tick_floor<N: Number>(price: N) -> (floored: N)
    ensures
        tick_floor_is(price, floored),
{
    let tick = tick_size(price);
    let count = price.over(tick).plus(N::from_ratio(1, 1_000_000_000)).floor();
    count.times(tick)
}

/// `raised` is the smallest legal tick at or above `price`, a billionth of a tick being
/// forgiven.
pub open spec fn tick_ceil_is<N: Number>(price: N, raised: N) -> bool {
    exists|tick: N, ticks: N, slack: N, lowered: N, count: N|
        {
            &&& tick_size_is(price, tick)
            &&& quotient_is(price, tick, ticks)
            &&& ratio_is(1, 1_000_000_000, slack)
            &&& difference_is(ticks, slack, lowered)
            &&& ceil_is(lowered, count)
            &&& product_is(count, tick, raised)
        }
}

/// Smallest legal tick at or above `price`; the slack absorbs rounding error.
pub fn tick_ceil<N: Number>(price: N) -> (raised: N)
    ensures
        tick_ceil_is(price, raised),
{
    let tick = tick_size(price);
    let count = price.over(tick).minus(N::from_ratio(1, 1_000_000_000)).ceil();
    count.times(tick)
}

/// `price` is the buy fill on `bar`: the lowest legal tick at or above the day's low, or
/// open.
pub open spec fn buy_price_is<N: Number>(bar: DayBar<N>, fill: Fill, price: N) -> bool {
    match fill {
        Fill::LowHigh => tick_ceil_is(bar.low, price),
        Fill::Open => tick_ceil_is(bar.open, price),
    }
}

/// Buy fill: lowest legal tick at or above the day's low (or open).
pub fn buy_price<N: Number>(bar: &DayBar<N>, fill: Fill) -> (price: N)
    ensures
        buy_price_is(*bar, fill, price),
{
    match fill {
        Fill::LowHigh => tick_ceil(bar.low),
        Fill::Open => tick_ceil(bar.open),
    }
}

/// `price` is the sell fill on `bar`: the highest legal tick at or below the day's high,
/// or open.
pub open spec fn sell_price_is<N: Number>(bar: DayBar<N>, fill: Fill, price: N) -> bool {
    match fill {
        Fill::LowHigh => tick_floor_is(bar.high, price),
        Fill::Open => tick_floor_is(bar.open, price),
    }
}

/// Sell fill: highest legal tick at or below the day's high (or open).
pub fn sell_price<N: Number>(bar: &DayBar<N>, fill: Fill) -> (price: N)
    ensures
        sell_price_is(*bar, fill, price),
{
    match fill {
        Fill::LowHigh => tick_floor(bar.high),
        Fill::Open => tick_floor(bar.open),
    }
}

/// The tick size at `price` in hundredths of NT$: 1 below NT$ 10, 5 below 50, 10 below 100,
/// 50 below 500, 100 below 1000, and 500 from there on.
pub open spec fn tick_cents(price: real) -> int {
    if price < 10 as real {
        1
    } else if price < 50 as real {
        5
    } else if price < 100 as real {
        10
    } else if price < 500 as real {
        50
    } else if price < 1_000 as real {
        100
    } else {
        500
    }
}

/// In an exact format the tick size is that of the price's band.
pub proof fn tick_follows_the_price<N: Number>(value: spec_fn(N) -> real, price: N, tick: N)
    requires
        exact(value),
        tick_size_is(price, tick),
    ensures
        value(tick) * (100 as real) == tick_cents(value(price)) as real,
        value(tick) > 0 as real,
{
    let band = choose|band: int| #[trigger]
        band_is(price, band) && ratio_is(band_tick(band), 100, tick);
    assert forall|earlier: int| 0 <= earlier < band implies value(price) >= #[trigger] band_limit(
        earlier,
    ) as int as real by {
        lemma_below(value, price, band_limit(earlier), false);
    }
    if band < 5 {
        lemma_below(value, price, band_limit(band), true);
    }
    if band > 0 {
        assert(value(price) >= band_limit(band - 1) as int as real);
    }
}

proof fn lemma_below<N: Number>(value: spec_fn(N) -> real, price: N, limit: u64, below: bool)
    requires
        exact(value),
        below_is(price, limit, below),
    ensures
        below == (value(price) < limit as int as real),
{
    let bound = choose|bound: N| ratio_is(limit, 1, bound) && exceeds_is(bound, price, below);
    assert(value(bound) * (1u64 as int as real) == limit as int as real);
    assert(value(bound) * (1 as real) == value(bound)) by (nonlinear_arith);
}

/// What `count` ticks of this `size` amount to.
pub open spec fn whole_ticks(count: int, size: real) -> real {
    count as real * size
}

/// A billionth, the rounding error that a fill forgives, in ticks.
pub open spec fn tick_slack() -> real {
    1 as real / 1_000_000_000 as real
}

/// In an exact format both fills are legal ticks around the price: `floored` and `raised` are
/// whole multiples of the tick size, less than a tick away from the price and on their own
/// side of it up to a billionth of a tick. They are one tick apart, or the same where the
/// price is itself a legal tick, up to a billionth.
pub proof fn ticks_enclose_the_price<N: Number>(
    value: spec_fn(N) -> real,
    price: N,
    tick: N,
    floored: N,
    raised: N,
)
    requires
        exact(value),
        tick_size_is(price, tick),
        tick_floor_is(price, floored),
        tick_ceil_is(price, raised),
    ensures
        value(floored) <= value(price) + tick_slack() * value(tick),
        value(price) - value(floored) < value(tick),
        value(price) <= value(raised) + tick_slack() * value(tick),
        value(raised) - value(price) < value(tick),
        exists|low: int, high: int|
            {
                &&& value(floored) == #[trigger] whole_ticks(low, value(tick))
                &&& value(raised) == #[trigger] whole_ticks(high, value(tick))
                &&& low == high || high == low + 1
                &&& low == high <==> value(floored) <= value(price) + tick_slack() * value(tick)
                    && value(price) <= value(floored) + tick_slack() * value(tick)
            },
{
    tick_follows_the_price(value, price, tick);
    let size = value(tick);
    let worth = value(price);
    let (down, ticks, slack, lifted, count) = choose|
        tick: N,
        ticks: N,
        slack: N,
        lifted: N,
        count: N,
    |
        {
            &&& tick_size_is(price, tick)
            &&& quotient_is(price, tick, ticks)
            &&& ratio_is(1, 1_000_000_000, slack)
            &&& sum_is(ticks, slack, lifted)
            &&& floor_is(lifted, count)
            &&& product_is(count, tick, floored)
        };
    tick_follows_the_price(value, price, down);
    let low = choose|whole: int|
        value(count) == whole as real && #[trigger] rounds_down(value(lifted), whole);
    let (up, steps, ease, lowered, total) = choose|
        tick: N,
        ticks: N,
        slack: N,
        lowered: N,
        count: N,
    |
        {
            &&& tick_size_is(price, tick)
            &&& quotient_is(price, tick, ticks)
            &&& ratio_is(1, 1_000_000_000, slack)
            &&& difference_is(ticks, slack, lowered)
            &&& ceil_is(lowered, count)
            &&& product_is(count, tick, raised)
        };
    tick_follows_the_price(value, price, up);
    let high = choose|whole: int|
        value(total) == whole as real && #[trigger] rounds_up(value(lowered), whole);
    let ratio = value(ticks);
    let share = tick_slack();
    assert(value(down) == size && value(up) == size);
    assert(value(slack) == share && value(ease) == share);
    assert(value(steps) == ratio) by (nonlinear_arith)
        requires
            value(steps) * size == worth,
            ratio * size == worth,
            size > 0 as real,
    ;
    assert(low as real * size <= worth + share * size && worth - low as real * size < size)
        by (nonlinear_arith)
        requires
            ratio * size == worth,
            low as real <= ratio + share,
            ratio + share < (low + 1) as real,
            share > 0 as real,
            size > 0 as real,
    ;
    assert(worth <= high as real * size + share * size && high as real * size - worth < size)
        by (nonlinear_arith)
        requires
            ratio * size == worth,
            ((high - 1) as real) < ratio - share,
            ratio - share <= high as real,
            share > 0 as real,
            size > 0 as real,
    ;
    assert(low <= high <= low + 1);
    assert(low == high <==> ratio - share <= low as real);
    assert(ratio - share <= low as real <==> worth <= low as real * size + share * size)
        by (nonlinear_arith)
        requires
            ratio * size == worth,
            size > 0 as real,
    ;
    assert(value(floored) == whole_ticks(low, size));
    assert(value(raised) == whole_ticks(high, size));
}

} // verus!
