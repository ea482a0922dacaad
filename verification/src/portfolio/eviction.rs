//! Who leaves a full book for a stronger name, and who stays.
use vstd::prelude::*;

use crate::number::Number;
#[allow(unused_imports)]
use crate::number::{difference_is, exact, exceeds_is, one_result, rank_is};
#[allow(unused_imports)]
use crate::portfolio::fills::{
    fills_below, round_trip_costs_both_legs_and_the_tax, sales_fill_below_the_bar,
};
#[allow(unused_imports)]
use crate::portfolio::orders::{
    booked, candidates_are, closed_trade, pick_is, picks_are, sale_is, stands_for,
    strongest_first, BuyRules, SaleFigures,
};
#[allow(unused_imports)]
use crate::portfolio::pricing::{round_trip_cost_is, sell_price_is};
#[allow(unused_imports)]
use crate::portfolio::ranking::{in_order, lists_slot, sorted, Ranked};
#[allow(unused_imports)]
use crate::portfolio::rotation::{
    beaten_is, rotate_phase_is, rotate_step, rotated_upto, rotation_is, stands_for_holding,
    weakest_are,
};
#[allow(unused_imports)]
use crate::portfolio::types::{
    bar_of, bar_stands, distinct_bars, distinct_holdings, holds, Account, DayBar, ExitReason, Fill,
    Position, TickerBar, TradingDay,
};
#[allow(unused_imports)]
use crate::reals::ranks_by;

verus! {

/// One of the first `count` entries of `list` is named `ticker`.
pub open spec fn named_before(list: Seq<Ranked>, count: nat, ticker: Seq<char>) -> bool {
    exists|k: int| 0 <= k < count && (#[trigger] list[k]).name@ == ticker
}

/// The bar of a ticker is the one that stands under it.
pub proof fn lemma_bar_of<N>(bars: Seq<TickerBar<N>>, slot: int)
    requires
        distinct_bars(bars),
        0 <= slot < bars.len(),
    ensures
        bar_of(bars, bars[slot].ticker@) == Some(bars[slot].bar),
{
    let ticker = bars[slot].ticker@;
    assert(bar_stands(bars, ticker, slot));
    let found = choose|found: int| bar_stands(bars, ticker, found);
    if found < slot {
        assert(bars[found].ticker@ != bars[slot].ticker@);
    } else if slot < found {
        assert(bars[slot].ticker@ != bars[found].ticker@);
    }
}

proof fn lemma_removed<N>(holdings: Seq<Position<N>>, at: int)
    requires
        distinct_holdings(holdings),
        0 <= at < holdings.len(),
    ensures
        distinct_holdings(holdings.remove(at)),
        forall|ticker: Seq<char>| #[trigger]
            holds(holdings.remove(at), ticker) <==> holds(holdings, ticker) && ticker
                != holdings[at].ticker@,
{
    let rest = holdings.remove(at);
    assert forall|i: int, j: int|
        #![trigger rest[i], rest[j]]
        0 <= i < j < rest.len() implies rest[i].ticker@ != rest[j].ticker@ by {
        let a = if i < at {
            i
        } else {
            i + 1
        };
        let b = if j < at {
            j
        } else {
            j + 1
        };
        assert(holdings[a].ticker@ != holdings[b].ticker@);
    }
    assert forall|ticker: Seq<char>| #[trigger] holds(rest, ticker) <==> holds(holdings, ticker)
        && ticker != holdings[at].ticker@ by {
        if holds(rest, ticker) {
            let i = choose|i: int| 0 <= i < rest.len() && (#[trigger] rest[i]).ticker@ == ticker;
            let a = if i < at {
                i
            } else {
                i + 1
            };
            assert(holdings[a].ticker@ == ticker);
            if a < at {
                assert(holdings[a].ticker@ != holdings[at].ticker@);
            } else {
                assert(holdings[at].ticker@ != holdings[a].ticker@);
            }
        }
        if holds(holdings, ticker) && ticker != holdings[at].ticker@ {
            let a = choose|a: int|
                0 <= a < holdings.len() && (#[trigger] holdings[a]).ticker@ == ticker;
            let i = if a < at {
                a
            } else {
                a - 1
            };
            assert(rest[i].ticker@ == ticker);
        }
    }
}

proof fn lemma_evicted<N: Number>(
    account: Account<N>,
    held: Seq<Ranked>,
    day: TradingDay<N>,
    fill: Fill,
    count: nat,
    next: Account<N>,
)
    requires
        distinct_holdings(account.holdings),
        rotated_upto(account, held, day, fill, count, next),
    ensures
        distinct_holdings(next.holdings),
        next.holdings.len() + count == account.holdings.len(),
        next.trades.len() == account.trades.len() + count,
        forall|ticker: Seq<char>| #[trigger]
            holds(next.holdings, ticker) <==> holds(account.holdings, ticker) && !named_before(
                held,
                count,
                ticker,
            ),
    decreases count,
{
    if count > 0 {
        let before = (count - 1) as nat;
        let name = held[count - 1].name@;
        let earlier = choose|earlier: Account<N>|
            {
                &&& rotated_upto(account, held, day, fill, before, earlier)
                &&& #[trigger] rotate_step(earlier, name, day, fill, next)
            };
        lemma_evicted(account, held, day, fill, before, earlier);
        let (at, price) = choose|at: int, price: N|
            {
                &&& 0 <= at < earlier.holdings.len()
                &&& earlier.holdings[at].ticker@ == name
                &&& #[trigger] booked(
                    earlier,
                    earlier.holdings.remove(at),
                    earlier.holdings[at],
                    day.date,
                    price,
                    ExitReason::Rotate,
                    next,
                )
            };
        lemma_removed(earlier.holdings, at);
        assert forall|ticker: Seq<char>| #[trigger] holds(next.holdings, ticker) <==> holds(
            account.holdings,
            ticker,
        ) && !named_before(held, count, ticker) by {
            assert(holds(next.holdings, ticker) <==> holds(earlier.holdings, ticker) && ticker
                != name);
            if named_before(held, before, ticker) {
                let k = choose|k: int| 0 <= k < before && (#[trigger] held[k]).name@ == ticker;
                assert(held[k].name@ == ticker);
            }
            if ticker == name {
                assert(held[count - 1].name@ == ticker);
            }
            if named_before(held, count, ticker) {
                let k = choose|k: int| 0 <= k < count && (#[trigger] held[k]).name@ == ticker;
                if k < before {
                    assert(named_before(held, before, ticker));
                }
            }
        }
    }
}

/// The rotation behind an account that lost holdings.
proof fn lemma_rotation<N: Number>(
    account: Account<N>,
    day: TradingDay<N>,
    rules: BuyRules<N>,
    next: Account<N>,
) -> (found: (Seq<Ranked>, Seq<Ranked>, N, nat))
    requires
        rotate_phase_is(account, day, rules, next),
        account.holdings.len() >= rules.max_holdings,
    ensures
        candidates_are(day.bars@, account.holdings, rules.threshold, found.0),
        weakest_are(day.bars@, account.holdings, found.1),
        round_trip_cost_is(found.2),
        rotation_is(day.bars@, found.0, found.1, found.2, found.3),
        rotated_upto(account, found.1, day, rules.fill, found.3, next),
{
    let (challengers, held, hurdle, count) = choose|
        challengers: Seq<Ranked>,
        held: Seq<Ranked>,
        hurdle: N,
        count: nat,
    |
        {
            &&& candidates_are(day.bars@, account.holdings, rules.threshold, challengers)
            &&& weakest_are(day.bars@, account.holdings, held)
            &&& round_trip_cost_is(hurdle)
            &&& #[trigger] rotation_is(day.bars@, challengers, held, hurdle, count)
            &&& #[trigger] rotated_upto(account, held, day, rules.fill, count, next)
        };
    (challengers, held, hurdle, count)
}

/// Where a held ticker that has a bar stands among the holdings in question.
proof fn lemma_listed<N: Number>(
    bars: Seq<TickerBar<N>>,
    holdings: Seq<Position<N>>,
    held: Seq<Ranked>,
    slot: int,
) -> (k: int)
    requires
        distinct_bars(bars),
        distinct_holdings(holdings),
        weakest_are(bars, holdings, held),
        0 <= slot < bars.len(),
        holds(holdings, bars[slot].ticker@),
    ensures
        0 <= k < held.len(),
        held[k].name@ == bars[slot].ticker@,
        rank_is(bars[slot].bar.score, held[k].key),
        bar_of(bars, held[k].name@) == Some(bars[slot].bar),
{
    let ticker = bars[slot].ticker@;
    lemma_bar_of(bars, slot);
    let place = choose|place: int|
        0 <= place < holdings.len() && (#[trigger] holdings[place]).ticker@ == ticker;
    assert(lists_slot(held, place));
    let k = choose|k: int| 0 <= k < held.len() && (#[trigger] held[k]).slot == place;
    assert(stands_for_holding(bars, holdings, held[k]));
    k
}

/// No holding that is priced today and stays through the rotation ranks below one that
/// rotated out.
pub proof fn no_weaker_holding_stays<N: Number>(
    account: Account<N>,
    day: TradingDay<N>,
    rules: BuyRules<N>,
    next: Account<N>,
    out: int,
    kept: int,
    lower: i64,
    upper: i64,
)
    requires
        one_result::<N>(),
        day.wf(),
        distinct_holdings(account.holdings),
        rotate_phase_is(account, day, rules, next),
        0 <= out < day.bars@.len(),
        0 <= kept < day.bars@.len(),
        holds(account.holdings, day.bars@[out].ticker@),
        !holds(next.holdings, day.bars@[out].ticker@),
        holds(next.holdings, day.bars@[kept].ticker@),
        rank_is(day.bars@[out].bar.score, lower),
        rank_is(day.bars@[kept].bar.score, upper),
    ensures
        lower <= upper,
{
    let (a, b) = lemma_out_and_kept(account, day, rules, next, out, kept);
    assert(rank_is(day.bars@[out].bar.score, a));
    assert(rank_is(day.bars@[kept].bar.score, b));
}

/// In a format that ranks by value, no holding that is priced today and stays through the
/// rotation has a lower score than one that rotated out.
pub proof fn lowest_scores_rotate_out<N: Number>(
    value: spec_fn(N) -> real,
    account: Account<N>,
    day: TradingDay<N>,
    rules: BuyRules<N>,
    next: Account<N>,
    out: int,
    kept: int,
)
    requires
        ranks_by(value),
        day.wf(),
        distinct_holdings(account.holdings),
        rotate_phase_is(account, day, rules, next),
        0 <= out < day.bars@.len(),
        0 <= kept < day.bars@.len(),
        holds(account.holdings, day.bars@[out].ticker@),
        !holds(next.holdings, day.bars@[out].ticker@),
        holds(next.holdings, day.bars@[kept].ticker@),
    ensures
        value(day.bars@[out].bar.score) <= value(day.bars@[kept].bar.score),
{
    let (a, b) = lemma_out_and_kept(account, day, rules, next, out, kept);
    assert(rank_is(day.bars@[out].bar.score, a));
    assert(rank_is(day.bars@[kept].bar.score, b));
}

proof fn lemma_out_and_kept<N: Number>(
    account: Account<N>,
    day: TradingDay<N>,
    rules: BuyRules<N>,
    next: Account<N>,
    out: int,
    kept: int,
) -> (ranks: (i64, i64))
    requires
        day.wf(),
        distinct_holdings(account.holdings),
        rotate_phase_is(account, day, rules, next),
        0 <= out < day.bars@.len(),
        0 <= kept < day.bars@.len(),
        holds(account.holdings, day.bars@[out].ticker@),
        !holds(next.holdings, day.bars@[out].ticker@),
        holds(next.holdings, day.bars@[kept].ticker@),
    ensures
        rank_is(day.bars@[out].bar.score, ranks.0),
        rank_is(day.bars@[kept].bar.score, ranks.1),
        ranks.0 <= ranks.1,
{
    let bars = day.bars@;
    let (challengers, held, hurdle, count) = lemma_rotation(account, day, rules, next);
    lemma_evicted(account, held, day, rules.fill, count, next);
    assert(holds(account.holdings, bars[kept].ticker@));
    assert(named_before(held, count, bars[out].ticker@));
    let a = choose|a: int| 0 <= a < count && (#[trigger] held[a]).name@ == bars[out].ticker@;
    let b = lemma_listed(bars, account.holdings, held, kept);
    assert(b >= count) by {
        if b < count {
            assert(named_before(held, count, bars[kept].ticker@));
        }
    }
    assert(stands_for_holding(bars, account.holdings, held[a]));
    lemma_bar_of(bars, out);
    assert(in_order(held[a], held[b]));
    (held[a].key, held[b].key)
}

/// In an exact format every holding that rotates out makes room for a stronger name: one that
/// is not held, scores above the threshold, and beats it by more than the 0.585% that a round
/// trip costs. Nothing leaves while a slot is open.
pub proof fn only_beaten_holdings_rotate_out<N: Number>(
    value: spec_fn(N) -> real,
    account: Account<N>,
    day: TradingDay<N>,
    rules: BuyRules<N>,
    next: Account<N>,
    ticker: Seq<char>,
)
    requires
        exact(value),
        day.wf(),
        distinct_holdings(account.holdings),
        rotate_phase_is(account, day, rules, next),
        holds(account.holdings, ticker),
        !holds(next.holdings, ticker),
    ensures
        account.holdings.len() >= rules.max_holdings,
        exists|out: int, rival: int|
            {
                &&& 0 <= out < day.bars@.len()
                &&& 0 <= rival < day.bars@.len()
                &&& (#[trigger] day.bars@[out]).ticker@ == ticker
                &&& !holds(account.holdings, (#[trigger] day.bars@[rival]).ticker@)
                &&& value(day.bars@[rival].bar.score) > value(rules.threshold)
                &&& value(day.bars@[rival].bar.score) - value(day.bars@[out].bar.score)
                    > 585 as real / 100_000 as real
            },
{
    let bars = day.bars@;
    let (challengers, held, hurdle, count) = lemma_rotation(account, day, rules, next);
    lemma_evicted(account, held, day, rules.fill, count, next);
    assert(named_before(held, count, ticker));
    let k = choose|k: int| 0 <= k < count && (#[trigger] held[k]).name@ == ticker;
    assert(stands_for_holding(bars, account.holdings, held[k]));
    assert(beaten_is(bars, challengers[k], held[k], hurdle, true));
    let out = choose|out: int| bar_stands(bars, ticker, out);
    let rival = challengers[k].slot as int;
    lemma_challenger(value, bars, account.holdings, rules.threshold, challengers, k);
    round_trip_costs_both_legs_and_the_tax(value, hurdle);
    let gain = choose|gain: N|
        {
            &&& difference_is(bars[rival].bar.score, bars[out].bar.score, gain)
            &&& #[trigger] exceeds_is(gain, hurdle, true)
        };
    assert(bars[out].ticker@ == ticker && !holds(account.holdings, bars[rival].ticker@));
}

proof fn lemma_challenger<N: Number>(
    value: spec_fn(N) -> real,
    bars: Seq<TickerBar<N>>,
    holdings: Seq<Position<N>>,
    threshold: N,
    challengers: Seq<Ranked>,
    k: int,
)
    requires
        exact(value),
        candidates_are(bars, holdings, threshold, challengers),
        0 <= k < challengers.len(),
    ensures
        challengers[k].slot < bars.len(),
        !holds(holdings, bars[challengers[k].slot as int].ticker@),
        value(bars[challengers[k].slot as int].bar.score) > value(threshold),
{
    let picks = choose|picks: Seq<bool>| #[trigger]
        picks_are(bars, holdings, threshold, picks) && strongest_first(bars, picks, challengers);
    assert(stands_for(bars, challengers[k]));
    let slot = challengers[k].slot as int;
    assert(pick_is(bars[slot], holdings, threshold, picks[slot]));
}

proof fn lemma_one_reaches(places: Seq<int>)
    requires
        places.no_duplicates(),
        places.len() > 0,
        forall|i: int| 0 <= i < places.len() ==> 0 <= #[trigger] places[i],
    ensures
        exists|i: int| 0 <= i < places.len() && #[trigger] places[i] >= places.len() - 1,
{
    let top = places.len() - 1;
    if forall|i: int| 0 <= i < places.len() ==> #[trigger] places[i] < top {
        places.unique_seq_to_set();
        vstd::set_lib::lemma_int_range(0, top);
        assert(places.to_set().subset_of(vstd::set_lib::set_int_range(0, top)));
        vstd::set_lib::lemma_len_subset(places.to_set(), vstd::set_lib::set_int_range(0, top));
    }
}

/// In an exact format that ranks by value, a full book gives way as far as the challengers
/// carry: if more of them than holdings left score `score` or better, no holding that is
/// priced today and stays is beaten by `score` by more than a round trip costs.
pub proof fn beaten_holdings_do_not_stay<N: Number>(
    value: spec_fn(N) -> real,
    account: Account<N>,
    day: TradingDay<N>,
    rules: BuyRules<N>,
    next: Account<N>,
    kept: int,
    rivals: Seq<int>,
    score: real,
)
    requires
        exact(value),
        ranks_by(value),
        day.wf(),
        distinct_holdings(account.holdings),
        rotate_phase_is(account, day, rules, next),
        account.holdings.len() >= rules.max_holdings,
        0 <= kept < day.bars@.len(),
        holds(next.holdings, day.bars@[kept].ticker@),
        rivals.no_duplicates(),
        rivals.len() > account.holdings.len() - next.holdings.len(),
        forall|r: int|
            0 <= r < rivals.len() ==> {
                &&& 0 <= #[trigger] rivals[r] < day.bars@.len()
                &&& !holds(account.holdings, day.bars@[rivals[r]].ticker@)
                &&& value(day.bars@[rivals[r]].bar.score) > value(rules.threshold)
                &&& value(day.bars@[rivals[r]].bar.score) >= score
            },
    ensures
        score - value(day.bars@[kept].bar.score) <= 585 as real / 100_000 as real,
{
    let bars = day.bars@;
    let (challengers, held, hurdle, count) = lemma_rotation(account, day, rules, next);
    lemma_evicted(account, held, day, rules.fill, count, next);
    round_trip_costs_both_legs_and_the_tax(value, hurdle);
    assert(holds(account.holdings, bars[kept].ticker@));
    let b = lemma_listed(bars, account.holdings, held, kept);
    assert(b >= count) by {
        if b < count {
            assert(named_before(held, count, bars[kept].ticker@));
        }
    }
    let picks = choose|picks: Seq<bool>| #[trigger]
        picks_are(bars, account.holdings, rules.threshold, picks) && strongest_first(
            bars,
            picks,
            challengers,
        );
    let place = |r: int|
        choose|c: int| 0 <= c < challengers.len() && (#[trigger] challengers[c]).slot == rivals[r];
    let places = Seq::new(rivals.len(), place);
    assert forall|r: int| 0 <= r < rivals.len() implies 0 <= #[trigger] places[r]
        < challengers.len() && challengers[places[r]].slot == rivals[r] by {
        let rival = rivals[r];
        assert(pick_is(bars[rival], account.holdings, rules.threshold, picks[rival]));
        assert(lists_slot(challengers, rival));
    }
    assert(places.no_duplicates()) by {
        assert forall|i: int, j: int|
            0 <= i < places.len() && 0 <= j < places.len() && i != j implies places[i]
            != places[j] by {
            assert(rivals[i] != rivals[j]);
        }
    }
    lemma_one_reaches(places);
    let r = choose|r: int| 0 <= r < places.len() && #[trigger] places[r] >= places.len() - 1;
    let c = places[r];
    let rival = rivals[r];
    let turn = count as int;
    assert(c >= turn);
    assert(stands_for(bars, challengers[c]));
    assert(stands_for(bars, challengers[turn]));
    assert(beaten_is(bars, challengers[turn], held[turn], hurdle, false));
    assert(stands_for_holding(bars, account.holdings, held[turn]));
    let weakest = choose|slot: int| bar_stands(bars, held[turn].name@, slot);
    let strongest = challengers[turn].slot as int;
    let gain = choose|gain: N|
        {
            &&& difference_is(bars[strongest].bar.score, bars[weakest].bar.score, gain)
            &&& #[trigger] exceeds_is(gain, hurdle, false)
        };
    assert(rank_is(bars[weakest].bar.score, held[turn].key));
    if b > turn {
        assert(in_order(held[turn], held[b]));
    }
    let top = choose|rank: i64|
        rank_is(bars[strongest].bar.score, rank) && challengers[turn].key == -1 - rank;
    let mine = choose|rank: i64|
        rank_is(bars[rival].bar.score, rank) && challengers[c].key == -1 - rank;
    if c > turn {
        assert(in_order(challengers[turn], challengers[c]));
    }
    assert(top >= mine);
    assert(rank_is(bars[kept].bar.score, held[b].key));
    assert(value(bars[weakest].bar.score) <= value(bars[kept].bar.score));
    assert(value(bars[rival].bar.score) <= value(bars[strongest].bar.score));
}

} // verus!
