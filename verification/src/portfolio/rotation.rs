//! Making room for clearly stronger names when every slot is taken.
use vstd::prelude::*;

use crate::number::Number;
#[allow(unused_imports)]
use crate::number::{difference_is, exceeds_is, rank_is};
#[allow(unused_imports)]
use crate::portfolio::books::{account_sound, lemma_sale_keeps_books, whole_lots};
use crate::portfolio::orders::{book_sale, candidates, BuyRules};
#[allow(unused_imports)]
use crate::portfolio::orders::{booked, candidates_are, stands_for};
use crate::portfolio::pricing::{round_trip_cost, sell_price};
#[allow(unused_imports)]
use crate::portfolio::pricing::{round_trip_cost_is, sell_price_is};
use crate::portfolio::ranking::{sort_ranked, Ranked};
#[allow(unused_imports)]
use crate::portfolio::ranking::{distinct_slots, lemma_reordered, lists_slot, sorted};
use crate::portfolio::types::{
    find_bar, find_holding, ExitReason, Fill, Ledger, Position, TickerBar, TradingDay,
};
#[allow(unused_imports)]
use crate::portfolio::types::{bar_of, distinct_bars, distinct_holdings, holds, Account};

verus! {

/// `entry` stands for the holding in its slot, which has a bar, its key the rank of the
/// bar's score.
pub open spec fn stands_for_holding<N: Number>(
    bars: Seq<TickerBar<N>>,
    holdings: Seq<Position<N>>,
    entry: Ranked,
) -> bool {
    &&& entry.slot < holdings.len()
    &&& entry.name@ == holdings[entry.slot as int].ticker@
    &&& bar_of(bars, entry.name@) matches Some(bar) && rank_is(bar.score, entry.key)
}

/// `list` holds the holdings that have a bar, each once, weakest first.
pub open spec fn weakest_are<N: Number>(
    bars: Seq<TickerBar<N>>,
    holdings: Seq<Position<N>>,
    list: Seq<Ranked>,
) -> bool {
    &&& sorted(list)
    &&& distinct_slots(list)
    &&& forall|k: int| 0 <= k < list.len() ==> stands_for_holding(bars, holdings, #[trigger] list[k])
    &&& forall|slot: int|
        0 <= slot < holdings.len() && bar_of(bars, holdings[slot].ticker@) is Some ==> #[trigger]
        lists_slot(list, slot)
}

/// The holdings priced today, weakest first: the ones a challenger could displace.
fn weakest<N: Number>(bars: &Vec<TickerBar<N>>, holdings: &Vec<Position<N>>) -> (list: Vec<Ranked>)
    requires
        distinct_bars(bars@),
    ensures
        weakest_are(bars@, holdings@, list@),
{
    let mut found: Vec<Ranked> = Vec::new();
    let mut slot: usize = 0;
    while slot < holdings.len()
        invariant
            slot <= holdings.len(),
            distinct_bars(bars@),
            distinct_slots(found@),
            forall|k: int|
                0 <= k < found.len() ==> stands_for_holding(bars@, holdings@, #[trigger] found@[k])
                    && found@[k].slot < slot,
            forall|i: int|
                0 <= i < slot && bar_of(bars@, holdings@[i].ticker@) is Some ==> #[trigger]
                lists_slot(found@, i),
        decreases holdings.len() - slot,
    {
        let ghost before = found@;
        let ticker = &holdings[slot].ticker;
        let at = find_bar(bars, ticker);
        if at < bars.len() {
            let rank = bars[at].bar.score.rank();
            found.push(Ranked { key: rank, name: ticker.clone(), slot });
        }
        proof {
            assert(forall|k: int| 0 <= k < before.len() ==> #[trigger] found@[k] == before[k]);
            assert forall|i: int|
                0 <= i < slot + 1 && bar_of(
                    bars@,
                    holdings@[i].ticker@,
                ) is Some implies #[trigger] lists_slot(found@, i) by {
                if i < slot {
                    assert(lists_slot(before, i));
                    let k = choose|k: int|
                        0 <= k < before.len() && (#[trigger] before[k]).slot == i;
                    assert(found@[k].slot == i);
                } else {
                    assert(found@[found.len() - 1].slot == i);
                }
            }
        }
        slot = slot + 1;
    }
    let ghost unordered = found@;
    let list = sort_ranked(found);
    proof {
        lemma_reordered(unordered, list@);
        assert forall|k: int| 0 <= k < list.len() implies stands_for_holding(
            bars@,
            holdings@,
            #[trigger] list@[k],
        ) by {
            assert(unordered.contains(list@[k]));
        }
        assert forall|i: int|
            0 <= i < holdings.len() && bar_of(
                bars@,
                holdings@[i].ticker@,
            ) is Some implies #[trigger] lists_slot(list@, i) by {
            assert(lists_slot(unordered, i));
            let k = choose|k: int| 0 <= k < unordered.len() && (#[trigger] unordered[k]).slot == i;
            assert(list@.contains(unordered[k]));
            let l = choose|l: int| 0 <= l < list.len() && list@[l] == unordered[k];
            assert(list@[l].slot == i);
        }
    }
    list
}

/// Whether the challenger's score beats that of the holding by more than `hurdle` is
/// `beaten`.
pub open spec fn beaten_is<N: Number>(
    bars: Seq<TickerBar<N>>,
    challenger: Ranked,
    held: Ranked,
    hurdle: N,
    beaten: bool,
) -> bool {
    bar_of(bars, held.name@) matches Some(bar) && exists|gain: N|
        {
            &&& difference_is(bars[challenger.slot as int].bar.score, bar.score, gain)
            &&& #[trigger] exceeds_is(gain, hurdle, beaten)
        }
}

/// `count` of the holdings rotate out: weakest against strongest challenger, pair by pair,
/// up to the first pair that does not clear the hurdle.
pub open spec fn rotation_is<N: Number>(
    bars: Seq<TickerBar<N>>,
    challengers: Seq<Ranked>,
    held: Seq<Ranked>,
    hurdle: N,
    count: nat,
) -> bool {
    &&& count <= challengers.len()
    &&& count <= held.len()
    &&& forall|i: int|
        0 <= i < count ==> beaten_is(bars, challengers[i], #[trigger] held[i], hurdle, true)
    &&& count < challengers.len() && count < held.len() ==> beaten_is(
        bars,
        challengers[count as int],
        held[count as int],
        hurdle,
        false,
    )
}

/// `next` is the account after the position in `ticker` was sold for a stronger name, at
/// the sell fill of its bar.
pub open spec fn rotate_step<N: Number>(
    account: Account<N>,
    ticker: Seq<char>,
    day: TradingDay<N>,
    fill: Fill,
    next: Account<N>,
) -> bool {
    exists|at: int, price: N|
        {
            &&& 0 <= at < account.holdings.len()
            &&& account.holdings[at].ticker@ == ticker
            &&& bar_of(day.bars@, ticker) matches Some(bar) && sell_price_is(bar, fill, price)
            &&& #[trigger] booked(
                account,
                account.holdings.remove(at),
                account.holdings[at],
                day.date,
                price,
                ExitReason::Rotate,
                next,
            )
        }
}

/// `next` is the account after the first `count` holdings of `held` were sold, in that
/// order.
pub open spec fn rotated_upto<N: Number>(
    account: Account<N>,
    held: Seq<Ranked>,
    day: TradingDay<N>,
    fill: Fill,
    count: nat,
    next: Account<N>,
) -> bool
    decreases count,
{
    if count == 0 {
        next == account
    } else {
        exists|earlier: Account<N>|
            {
                &&& rotated_upto(account, held, day, fill, (count - 1) as nat, earlier)
                &&& #[trigger] rotate_step(earlier, held[count - 1].name@, day, fill, next)
            }
    }
}

/// `next` is the account after the day's rotation: nothing happens while a slot is open;
/// otherwise the weakest holdings leave that a distinct challenger beats by more than a
/// round trip costs.
pub open spec fn rotate_phase_is<N: Number>(
    account: Account<N>,
    day: TradingDay<N>,
    rules: BuyRules<N>,
    next: Account<N>,
) -> bool {
    if account.holdings.len() < rules.max_holdings {
        next == account
    } else {
        exists|challengers: Seq<Ranked>, held: Seq<Ranked>, hurdle: N, count: nat|
            {
                &&& candidates_are(day.bars@, account.holdings, rules.threshold, challengers)
                &&& weakest_are(day.bars@, account.holdings, held)
                &&& round_trip_cost_is(hurdle)
                &&& #[trigger] rotation_is(day.bars@, challengers, held, hurdle, count)
                &&& #[trigger] rotated_upto(account, held, day, rules.fill, count, next)
            }
    }
}

/// How many holdings rotate out.
fn rotation_count<N: Number>(
    bars: &Vec<TickerBar<N>>,
    challengers: &Vec<Ranked>,
    held: &Vec<Ranked>,
    hurdle: N,
) -> (count: usize)
    requires
        distinct_bars(bars@),
        forall|k: int| 0 <= k < challengers.len() ==> stands_for(bars@, #[trigger] challengers@[k]),
        forall|k: int|
            0 <= k < held.len() ==> bar_of(bars@, (#[trigger] held@[k]).name@) is Some,
    ensures
        rotation_is(bars@, challengers@, held@, hurdle, count as nat),
{
    let mut count: usize = 0;
    while count < challengers.len() && count < held.len()
        invariant
            count <= challengers.len(),
            count <= held.len(),
            distinct_bars(bars@),
            forall|k: int|
                0 <= k < challengers.len() ==> stands_for(bars@, #[trigger] challengers@[k]),
            forall|k: int|
                0 <= k < held.len() ==> bar_of(bars@, (#[trigger] held@[k]).name@) is Some,
            forall|i: int|
                0 <= i < count ==> beaten_is(
                    bars@,
                    challengers@[i],
                    #[trigger] held@[i],
                    hurdle,
                    true,
                ),
        decreases held.len() - count,
    {
        assert(stands_for(bars@, challengers@[count as int]));
        assert(bar_of(bars@, held@[count as int].name@) is Some);
        let at = find_bar(bars, &held[count].name);
        let challenger = bars[challengers[count].slot].bar.score;
        // Weakest holding against best remaining challenger: once this fails, no stronger
        // holding clears the hurdle against a weaker challenger either.
        let gain = challenger.minus(bars[at].bar.score);
        let beaten = gain.exceeds(hurdle);
        assert(exceeds_is(gain, hurdle, beaten));
        assert(beaten_is(bars@, challengers@[count as int], held@[count as int], hurdle, beaten));
        if !beaten {
            return count;
        }
        count = count + 1;
    }
    count
}

/// Rotate the weakest holdings out for clearly stronger challengers when the book is full,
/// pairing each eviction to a distinct above-threshold name whose edge beats it by more
/// than one round-trip cost. The freed slots are refilled by the buy phase.
pub fn rotate_phase<N: Number>(
    day: &TradingDay<N>,
    rules: &BuyRules<N>,
    ledger: &mut Ledger<N>,
)
    requires
        day.wf(),
        distinct_holdings(old(ledger)@.holdings),
    ensures
        rotate_phase_is(old(ledger)@, *day, *rules, final(ledger)@),
{
    if ledger.holdings.len() < rules.max_holdings {
        // Open slots already, so the buy phase can take challengers without evicting.
        return;
    }
    let ghost start = ledger@;
    let challengers = candidates(&day.bars, &ledger.holdings, rules.threshold);
    let held = weakest(&day.bars, &ledger.holdings);
    let hurdle = round_trip_cost();
    proof {
        assert forall|k: int| 0 <= k < held.len() implies bar_of(
            day.bars@,
            (#[trigger] held@[k]).name@,
        ) is Some by {
            assert(stands_for_holding(day.bars@, start.holdings, held@[k]));
        }
        assert forall|k: int| 0 <= k < held.len() implies holds(
            start.holdings,
            (#[trigger] held@[k]).name@,
        ) by {
            assert(stands_for_holding(day.bars@, start.holdings, held@[k]));
        }
        assert forall|i: int, j: int|
            #![trigger held@[i], held@[j]]
            0 <= i < j < held.len() implies held@[i].name@ != held@[j].name@ by {
            assert(stands_for_holding(day.bars@, start.holdings, held@[i]));
            assert(stands_for_holding(day.bars@, start.holdings, held@[j]));
            assert(held@[i].slot != held@[j].slot);
        }
    }
    let count = rotation_count(&day.bars, &challengers, &held, hurdle);
    let mut sold: usize = 0;
    while sold < count
        invariant
            sold <= count <= held.len(),
            day.wf(),
            rotated_upto(start, held@, *day, rules.fill, sold as nat, ledger@),
            forall|k: int|
                0 <= k < held.len() ==> bar_of(day.bars@, (#[trigger] held@[k]).name@) is Some,
            forall|k: int|
                sold <= k < held.len() ==> holds(ledger@.holdings, (#[trigger] held@[k]).name@),
            forall|i: int, j: int|
                #![trigger held@[i], held@[j]]
                0 <= i < j < held.len() ==> held@[i].name@ != held@[j].name@,
        decreases count - sold,
    {
        let ghost before = ledger@;
        let ticker = &held[sold].name;
        assert(holds(ledger@.holdings, held@[sold as int].name@));
        assert(bar_of(day.bars@, held@[sold as int].name@) is Some);
        let slot = find_bar(&day.bars, ticker);
        let price = sell_price(&day.bars[slot].bar, rules.fill);
        let at = find_holding(&ledger.holdings, ticker);
        let position = ledger.holdings.remove(at);
        let ghost remaining = ledger@;
        book_sale(ledger, day.date, &position, price, ExitReason::Rotate);
        proof {
            assert(remaining.holdings =~= before.holdings.remove(at as int));
            assert(position == before.holdings[at as int]);
            assert(remaining.cash == before.cash);
            assert(remaining.trades == before.trades);
            assert(remaining.events == before.events);
            assert(booked(remaining, remaining.holdings, position, day.date, price, ExitReason::Rotate, ledger@));
            assert(booked(
                before,
                before.holdings.remove(at as int),
                before.holdings[at as int],
                day.date,
                price,
                ExitReason::Rotate,
                ledger@,
            ));
            assert forall|k: int| sold < k < held.len() implies holds(
                ledger@.holdings,
                (#[trigger] held@[k]).name@,
            ) by {
                assert(holds(before.holdings, held@[k].name@));
                let i = choose|i: int|
                    0 <= i < before.holdings.len() && (#[trigger] before.holdings[i]).ticker@
                        == held@[k].name@;
                assert(held@[sold as int].name@ != held@[k].name@);
                if i < at {
                    assert(ledger@.holdings[i].ticker@ == held@[k].name@);
                } else {
                    assert(ledger@.holdings[i - 1].ticker@ == held@[k].name@);
                }
            }
        }
        sold = sold + 1;
        proof {
            let dealt = sold as nat;
            assert(rotated_upto(
                start,
                held@,
                *day,
                rules.fill,
                (dealt - 1) as nat,
                before,
            ));
            assert(rotate_step(before, held@[dealt - 1].name@, *day, rules.fill, ledger@));
        }
    }
}

proof fn lemma_rotation_keeps<N: Number>(
    account: Account<N>,
    held: Seq<Ranked>,
    day: TradingDay<N>,
    rules: BuyRules<N>,
    count: nat,
    next: Account<N>,
    index: int,
    starting_cash: N,
)
    requires
        account_sound(account, index, rules.max_holdings, starting_cash),
        rotated_upto(account, held, day, rules.fill, count, next),
    ensures
        account_sound(next, index, rules.max_holdings, starting_cash),
        next.holdings.len() + count == account.holdings.len(),
        next.trades.len() == account.trades.len() + count,
    decreases count,
{
    if count > 0 {
        let earlier = choose|earlier: Account<N>|
            {
                &&& rotated_upto(account, held, day, rules.fill, (count - 1) as nat, earlier)
                &&& #[trigger] rotate_step(
                    earlier,
                    held[count - 1].name@,
                    day,
                    rules.fill,
                    next,
                )
            };
        lemma_rotation_keeps(
            account,
            held,
            day,
            rules,
            (count - 1) as nat,
            earlier,
            index,
            starting_cash,
        );
        let (at, price) = choose|at: int, price: N|
            {
                &&& 0 <= at < earlier.holdings.len()
                &&& #[trigger] booked(
                    earlier,
                    earlier.holdings.remove(at),
                    earlier.holdings[at],
                    day.date,
                    price,
                    ExitReason::Rotate,
                    next,
                )
            };
        let remaining = earlier.holdings.remove(at);
        assert forall|i: int| 0 <= i < remaining.len() implies whole_lots(
            (#[trigger] remaining[i]).holding.shares,
        ) by {
            let j = if i < at {
                i
            } else {
                i + 1
            };
            assert(whole_lots(earlier.holdings[j].holding.shares));
        }
        lemma_sale_keeps_books(
            earlier,
            remaining,
            earlier.holdings[at],
            day.date,
            price,
            ExitReason::Rotate,
            next,
            1,
            starting_cash,
        );
        assert forall|i: int, j: int|
            #![trigger next.holdings[i], next.holdings[j]]
            0 <= i < j < next.holdings.len() implies next.holdings[i].ticker@
            != next.holdings[j].ticker@ by {
            let p = if i < at {
                i
            } else {
                i + 1
            };
            let q = if j < at {
                j
            } else {
                j + 1
            };
            assert(earlier.holdings[p].ticker@ != earlier.holdings[q].ticker@);
        }
        assert forall|i: int| 0 <= i < next.holdings.len() implies (
        #[trigger] next.holdings[i]).holding.entry_index <= index by {
            let p = if i < at {
                i
            } else {
                i + 1
            };
            assert(earlier.holdings[p].holding.entry_index <= index);
        }
    }
}

/// Rotation leaves a sound account sound: every position that leaves closes a trade.
pub proof fn rotate_phase_keeps_sound<N: Number>(
    account: Account<N>,
    day: TradingDay<N>,
    rules: BuyRules<N>,
    next: Account<N>,
    index: int,
    starting_cash: N,
)
    requires
        account_sound(account, index, rules.max_holdings, starting_cash),
        rotate_phase_is(account, day, rules, next),
    ensures
        account_sound(next, index, rules.max_holdings, starting_cash),
        next.holdings.len() + next.trades.len() == account.holdings.len() + account.trades.len(),
{
    if account.holdings.len() >= rules.max_holdings {
        let (challengers, held, hurdle, count) = choose|
            challengers: Seq<Ranked>,
            held: Seq<Ranked>,
            hurdle: N,
            count: nat,
        |
            {
                &&& #[trigger] rotation_is(day.bars@, challengers, held, hurdle, count)
                &&& #[trigger] rotated_upto(account, held, day, rules.fill, count, next)
            };
        lemma_rotation_keeps(account, held, day, rules, count, next, index, starting_cash);
    }
}

} // verus!
