//! The day loop of the portfolio simulation.
use vstd::prelude::*;

use crate::number::Number;
#[allow(unused_imports)]
use crate::portfolio::books::{account_sound, buy_phase_keeps_sound, marking_keeps_sound};
use crate::portfolio::exits::{sell_phase, ExitRules};
#[allow(unused_imports)]
use crate::portfolio::exits::{sell_phase_is, sell_phase_keeps_sound};
use crate::portfolio::orders::{buy_phase, equity, refresh_marks, BuyRules};
#[allow(unused_imports)]
use crate::portfolio::orders::{buy_phase_is, equity_is, marked};
use crate::portfolio::rotation::rotate_phase;
#[allow(unused_imports)]
use crate::portfolio::rotation::{rotate_phase_is, rotate_phase_keeps_sound};
#[allow(unused_imports)]
use crate::portfolio::types::Account;
use crate::portfolio::types::{EquityPoint, Ledger, TradingDay};

verus! {

/// The opening account: the starting cash and nothing else.
pub open spec fn opening<N>(starting_cash: N) -> Account<N> {
    Account {
        cash: starting_cash,
        holdings: Seq::empty(),
        trades: Seq::empty(),
        events: Seq::empty(),
    }
}

/// How a run trades.
#[derive(Clone, Copy)]
pub struct Strategy<N> {
    /// Opening balance.
    pub starting_cash: N,
    pub buys: BuyRules<N>,
    pub exits: ExitRules<N>,
    /// Whether clearly stronger names displace the weakest holdings.
    pub rotates: bool,
}

/// `filled` is the account after the second half of a day, which sets out from `sold`:
/// rotation and buys, neither of them on the last day.
pub open spec fn opened_is<N: Number>(
    sold: Account<N>,
    day: TradingDay<N>,
    index: usize,
    is_last: bool,
    strategy: Strategy<N>,
    filled: Account<N>,
) -> bool {
    if is_last {
        filled == sold
    } else {
        exists|rotated: Account<N>|
            {
                &&& (if strategy.rotates {
                    rotate_phase_is(sold, day, strategy.buys, rotated)
                } else {
                    rotated == sold
                })
                &&& #[trigger] buy_phase_is(rotated, day, index, strategy.buys, filled)
            }
    }
}

/// `next` is the account after one trading day and `worth` its value then: exits first,
/// then, except on the last day, rotation and buys, and at the end the marks.
pub open spec fn day_is<N: Number>(
    account: Account<N>,
    day: TradingDay<N>,
    index: usize,
    is_last: bool,
    strategy: Strategy<N>,
    next: Account<N>,
    worth: N,
) -> bool {
    exists|sold: Account<N>, filled: Account<N>|
        {
            &&& sell_phase_is(
                account,
                day,
                index as int,
                is_last,
                strategy.exits,
                sold,
            )
            &&& #[trigger] opened_is(sold, day, index, is_last, strategy, filled)
            &&& next == (Account { holdings: marked(filled.holdings, day.bars@), ..filled })
            &&& equity_is(next, worth)
        }
}

/// `next` is the account after day `at` of `days`, and `worth` its value then.
pub open spec fn day_at<N: Number>(
    days: Seq<TradingDay<N>>,
    strategy: Strategy<N>,
    at: int,
    account: Account<N>,
    next: Account<N>,
    worth: N,
) -> bool {
    day_is(account, days[at], at as usize, at == days.len() - 1, strategy, next, worth)
}

/// `account` and `curve` are where the simulation stands after the first `count` days.
pub open spec fn runs_upto<N: Number>(
    days: Seq<TradingDay<N>>,
    strategy: Strategy<N>,
    count: nat,
    account: Account<N>,
    curve: Seq<EquityPoint<N>>,
) -> bool
    decreases count,
{
    if count == 0 {
        account == opening(strategy.starting_cash) && curve.len() == 0
    } else {
        exists|earlier: Account<N>|
            {
                &&& curve.len() > 0
                &&& curve.last().date == days[count - 1].date
                &&& runs_upto(days, strategy, (count - 1) as nat, earlier, curve.drop_last())
                &&& #[trigger] day_at(
                    days,
                    strategy,
                    count - 1,
                    earlier,
                    account,
                    curve.last().equity,
                )
            }
    }
}

/// A day leaves a sound account sound. The last day closes every position and opens none.
pub proof fn day_keeps_sound<N: Number>(
    account: Account<N>,
    day: TradingDay<N>,
    index: usize,
    is_last: bool,
    strategy: Strategy<N>,
    next: Account<N>,
    worth: N,
    starting_cash: N,
)
    requires
        day.wf(),
        account_sound(account, index as int, strategy.buys.max_holdings, starting_cash),
        day_is(account, day, index, is_last, strategy, next, worth),
    ensures
        account_sound(next, index as int, strategy.buys.max_holdings, starting_cash),
        is_last ==> next.holdings.len() == 0 && next.trades.len() == account.trades.len()
            + account.holdings.len() && next.events.len() == account.events.len()
            + account.holdings.len(),
{
    let (sold, filled) = choose|sold: Account<N>, filled: Account<N>|
        {
            &&& sell_phase_is(
                account,
                day,
                index as int,
                is_last,
                strategy.exits,
                sold,
            )
            &&& #[trigger] opened_is(sold, day, index, is_last, strategy, filled)
            &&& next == (Account { holdings: marked(filled.holdings, day.bars@), ..filled })
        };
    sell_phase_keeps_sound(
        account,
        day,
        index as int,
        is_last,
        strategy.exits,
        sold,
        strategy.buys.max_holdings,
        starting_cash,
    );
    if !is_last {
        let rotated = choose|rotated: Account<N>|
            {
                &&& (if strategy.rotates {
                    rotate_phase_is(sold, day, strategy.buys, rotated)
                } else {
                    rotated == sold
                })
                &&& #[trigger] buy_phase_is(rotated, day, index, strategy.buys, filled)
            };
        if strategy.rotates {
            rotate_phase_keeps_sound(
                sold,
                day,
                strategy.buys,
                rotated,
                index as int,
                starting_cash,
            );
        }
        buy_phase_keeps_sound(rotated, day, index, strategy.buys, filled, starting_cash);
    }
    marking_keeps_sound(filled, day.bars@, index as int, strategy.buys.max_holdings, starting_cash);
}

/// Wherever a run stands, its account is sound and its curve has one point per day, with
/// that day's date. At the end no position is open.
pub proof fn run_keeps_sound<N: Number>(
    days: Seq<TradingDay<N>>,
    strategy: Strategy<N>,
    count: nat,
    account: Account<N>,
    curve: Seq<EquityPoint<N>>,
)
    requires
        forall|i: int| 0 <= i < days.len() ==> (#[trigger] days[i]).wf(),
        count <= days.len() <= usize::MAX,
        runs_upto(days, strategy, count, account, curve),
    ensures
        account_sound(account, count as int, strategy.buys.max_holdings, strategy.starting_cash),
        curve.len() == count,
        forall|i: int| 0 <= i < count ==> (#[trigger] curve[i]).date == days[i].date,
        count == days.len() ==> account.holdings.len() == 0,
    decreases count,
{
    if count > 0 {
        let earlier = choose|earlier: Account<N>|
            {
                &&& runs_upto(days, strategy, (count - 1) as nat, earlier, curve.drop_last())
                &&& #[trigger] day_at(
                    days,
                    strategy,
                    count - 1,
                    earlier,
                    account,
                    curve.last().equity,
                )
            };
        run_keeps_sound(days, strategy, (count - 1) as nat, earlier, curve.drop_last());
        assert(days[count - 1].wf());
        day_keeps_sound(
            earlier,
            days[count - 1],
            (count - 1) as usize,
            count - 1 == days.len() - 1,
            strategy,
            account,
            curve.last().equity,
            strategy.starting_cash,
        );
        assert forall|i: int| 0 <= i < count implies (#[trigger] curve[i]).date
            == days[i].date by {
            if i < count - 1 {
                assert(curve.drop_last()[i] == curve[i]);
            }
        }
    }
}

/// Walk over `days` (ascending) one by one: exits, rotation, buys, and the marks.
pub fn simulate<N: Number>(days: &[TradingDay<N>], strategy: &Strategy<N>) -> (outcome: (
    Ledger<N>,
    Vec<EquityPoint<N>>,
))
    requires
        forall|i: int| 0 <= i < days@.len() ==> (#[trigger] days@[i]).wf(),
        days@.len() > 1 ==> strategy.buys.max_holdings <= u32::MAX,
    ensures
        runs_upto(days@, *strategy, days@.len(), outcome.0@, outcome.1@),
{
    let mut ledger = Ledger {
        cash: strategy.starting_cash,
        holdings: Vec::new(),
        trades: Vec::new(),
        events: Vec::new(),
    };
    let mut equity_curve: Vec<EquityPoint<N>> = Vec::new();
    let mut index: usize = 0;
    assert(ledger@ =~= opening(strategy.starting_cash));
    while index < days.len()
        invariant
            index <= days@.len(),
            forall|i: int| 0 <= i < days@.len() ==> (#[trigger] days@[i]).wf(),
            days@.len() > 1 ==> strategy.buys.max_holdings <= u32::MAX,
            runs_upto(days@, *strategy, index as nat, ledger@, equity_curve@),
        decreases days@.len() - index,
    {
        let ghost before = ledger@;
        let ghost earlier = equity_curve@;
        let day = &days[index];
        let is_last = index == days.len() - 1;
        proof {
            run_keeps_sound(days@, *strategy, index as nat, before, earlier);
        }
        sell_phase(day, index, is_last, &strategy.exits, &mut ledger);
        let ghost sold = ledger@;
        proof {
            sell_phase_keeps_sound(
                before,
                *day,
                index as int,
                is_last,
                strategy.exits,
                sold,
                strategy.buys.max_holdings,
                strategy.starting_cash,
            );
        }
        if !is_last {
            if strategy.rotates {
                rotate_phase(day, &strategy.buys, &mut ledger);
                proof {
                    rotate_phase_keeps_sound(
                        sold,
                        *day,
                        strategy.buys,
                        ledger@,
                        index as int,
                        strategy.starting_cash,
                    );
                }
            }
            buy_phase(day, index, &strategy.buys, &mut ledger);
        }
        let ghost filled = ledger@;
        assert(opened_is(sold, *day, index, is_last, *strategy, filled));
        refresh_marks(&mut ledger.holdings, &day.bars);
        let worth = equity(&ledger);
        equity_curve.push(EquityPoint { date: day.date, equity: worth });
        index = index + 1;
        proof {
            let count = index as nat;
            assert(ledger@ =~= (Account {
                holdings: marked(filled.holdings, day.bars@),
                ..filled
            }));
            assert(equity_curve@.drop_last() =~= earlier);
            assert(runs_upto(days@, *strategy, (count - 1) as nat, before, equity_curve@.drop_last()));
            assert(day_at(
                days@,
                *strategy,
                count - 1,
                before,
                ledger@,
                equity_curve@.last().equity,
            ));
        }
    }
    (ledger, equity_curve)
}

} // verus!
