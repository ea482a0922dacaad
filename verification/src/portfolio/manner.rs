//! What sets the two simulations apart, what closes a position and whether a full book makes
//! room; and how either opens one.
use vstd::prelude::*;

use crate::number::Number;
#[allow(unused_imports)]
use crate::number::{exact, rank_is};
#[allow(unused_imports)]
use crate::portfolio::balance::{earned, run_is_worth_what_it_earned};
#[allow(unused_imports)]
use crate::portfolio::books::buy_phase_keeps_sound;
#[allow(unused_imports)]
use crate::portfolio::eviction::beaten_holdings_do_not_stay;
#[allow(unused_imports)]
use crate::portfolio::exits::{
    exit_step, exits_upto, sell_phase_is, sell_phase_keeps_sound, ExitRules,
};
#[allow(unused_imports)]
use crate::portfolio::orders::{
    buy_phase_is, buy_step, buys_upto, candidates_are, equity_is, marked, picks_are, stands_for,
    strongest_first, target_is, BuyRules,
};
#[allow(unused_imports)]
use crate::portfolio::ranking::{in_order, Ranked};
#[allow(unused_imports)]
use crate::portfolio::rotation::{
    rotate_phase_is, rotate_phase_keeps_sound, rotate_step, rotated_upto, stands_for_holding,
    weakest_are,
};
#[allow(unused_imports)]
use crate::portfolio::simulation::{day_at, opened_is, run_keeps_sound, runs_upto};
#[allow(unused_imports)]
use crate::portfolio::types::{
    bar_of, holds, Account, BacktestConfig, EquityPoint, ExitReason, Fill, Position, TickerBar,
    Trade, TradingDay,
};
#[allow(unused_imports)]
use crate::reals::ranks_by;
#[allow(unused_imports)]
use crate::text::names_ordered;

verus! {

/// The trade closed on a Sell of the model, or at the end of the run.
pub open spec fn closed_on_a_signal<N>(trade: Trade<N>) -> bool {
    trade.exit_reason == ExitReason::Signal || trade.exit_reason == ExitReason::Final
}

proof fn lemma_signal_exits<N: Number>(
    account: Account<N>,
    day: TradingDay<N>,
    index: int,
    is_last: bool,
    fill: Fill,
    count: nat,
    next: Account<N>,
)
    requires
        count <= account.holdings.len(),
        exits_upto(account, day, index, is_last, ExitRules::Signals(fill), count, next),
        forall|t: int|
            0 <= t < account.trades.len() ==> closed_on_a_signal(#[trigger] account.trades[t]),
    ensures
        forall|t: int| 0 <= t < next.trades.len() ==> closed_on_a_signal(#[trigger] next.trades[t]),
    decreases count,
{
    if count > 0 {
        let before = (count - 1) as nat;
        let rules = ExitRules::<N>::Signals(fill);
        let position = account.holdings[count - 1];
        let earlier = choose|earlier: Account<N>|
            {
                &&& exits_upto(account, day, index, is_last, rules, before, earlier)
                &&& #[trigger] exit_step(earlier, position, day, index, is_last, rules, next)
            };
        lemma_signal_exits(account, day, index, is_last, fill, before, earlier);
        assert forall|t: int| 0 <= t < next.trades.len() implies closed_on_a_signal(
            #[trigger] next.trades[t],
        ) by {
            if t < earlier.trades.len() {
                assert(next.trades[t] == earlier.trades[t]);
            }
        }
    }
}

/// A run on signals alone closes a position on a Sell of the model or at the end, and for no
/// other reason: it knows no barriers and rotates nothing out.
pub proof fn signal_runs_close_on_signals_alone<N: Number>(
    days: Seq<TradingDay<N>>,
    config: crate::portfolio::BacktestConfig<N>,
    count: nat,
    account: Account<N>,
    curve: Seq<EquityPoint<N>>,
)
    requires
        forall|i: int| 0 <= i < days.len() ==> (#[trigger] days[i]).wf(),
        count <= days.len() <= usize::MAX,
        runs_upto(days, crate::portfolio::strategy(config), count, account, curve),
    ensures
        forall|t: int|
            0 <= t < account.trades.len() ==> closed_on_a_signal(#[trigger] account.trades[t]),
    decreases count,
{
    if count > 0 {
        let strategy = crate::portfolio::strategy(config);
        let at = count - 1;
        let earlier = choose|earlier: Account<N>|
            {
                &&& runs_upto(days, strategy, (count - 1) as nat, earlier, curve.drop_last())
                &&& #[trigger] day_at(days, strategy, at, earlier, account, curve.last().equity)
            };
        signal_runs_close_on_signals_alone(
            days,
            config,
            (count - 1) as nat,
            earlier,
            curve.drop_last(),
        );
        run_keeps_sound(days, strategy, (count - 1) as nat, earlier, curve.drop_last());
        let (day, index, is_last) = (days[at], at as usize, at == days.len() - 1);
        let (sold, filled) = choose|sold: Account<N>, filled: Account<N>|
            {
                &&& sell_phase_is(earlier, day, index as int, is_last, strategy.exits, sold)
                &&& #[trigger] opened_is(sold, day, index, is_last, strategy, filled)
                &&& account == (Account { holdings: marked(filled.holdings, day.bars@), ..filled })
                &&& equity_is(account, curve.last().equity)
            };
        lemma_signal_exits(
            earlier,
            day,
            index as int,
            is_last,
            config.fill,
            earlier.holdings.len(),
            sold,
        );
        sell_phase_keeps_sound(
            earlier,
            day,
            index as int,
            is_last,
            strategy.exits,
            sold,
            strategy.buys.max_holdings,
            strategy.starting_cash,
        );
        if !is_last {
            assert(day.wf());
            let rotated = choose|rotated: Account<N>|
                rotated == sold && #[trigger] buy_phase_is(
                    rotated,
                    day,
                    index,
                    strategy.buys,
                    filled,
                );
            buy_phase_keeps_sound(
                sold,
                day,
                index,
                strategy.buys,
                filled,
                strategy.starting_cash,
            );
        }
    }
}

/// In an exact format the report of a run on signals alone ends at the starting cash and what
/// its trades earned, each of which was bought once and sold once.
pub proof fn signal_report_books_balance<N: Number>(
    value: spec_fn(N) -> real,
    days: Seq<TradingDay<N>>,
    config: crate::portfolio::BacktestConfig<N>,
    report: crate::portfolio::BacktestReport<N>,
)
    requires
        exact(value),
        forall|i: int| 0 <= i < days.len() ==> (#[trigger] days[i]).wf(),
        days.len() <= usize::MAX,
        crate::portfolio::run_is(days, config, report),
    ensures
        exists|account: Account<N>|
            {
                &&& #[trigger] runs_upto(
                    days,
                    crate::portfolio::strategy(config),
                    days.len(),
                    account,
                    report.equity_curve@,
                )
                &&& report.trade_count == account.trades.len()
                &&& 2 * report.trade_count == account.events.len()
                &&& value(report.final_equity) == value(config.starting_cash) + earned(
                    value,
                    account.trades,
                )
            },
{
    let strategy = crate::portfolio::strategy(config);
    let (account, curve) = choose|account: Account<N>, curve: Seq<EquityPoint<N>>|
        {
            &&& #[trigger] runs_upto(days, strategy, days.len(), account, curve)
            &&& crate::portfolio::report_is(config.starting_cash, account.trades, curve, report)
        };
    run_keeps_sound(days, strategy, days.len(), account, curve);
    if days.len() > 0 {
        run_is_worth_what_it_earned(value, days, strategy, account, curve);
    }
}

/// The book is full, and a name that is not held scores above the threshold and beats one that
/// is held and priced by more than the 0.585% that a round trip costs.
pub open spec fn challenged<N: Number>(
    value: spec_fn(N) -> real,
    bars: Seq<TickerBar<N>>,
    holdings: Seq<Position<N>>,
    config: BacktestConfig<N>,
) -> bool {
    &&& holdings.len() >= config.max_holdings
    &&& exists|weak: int, rival: int|
        {
            &&& 0 <= weak < bars.len()
            &&& 0 <= rival < bars.len()
            &&& holds(holdings, (#[trigger] bars[weak]).ticker@)
            &&& !holds(holdings, (#[trigger] bars[rival]).ticker@)
            &&& value(bars[rival].bar.score) > value(config.threshold)
            &&& value(bars[rival].bar.score) - value(bars[weak].bar.score) > 585 as real
                / 100_000 as real
        }
}

/// A trade beyond the first `from` was closed by rotation on `date`.
pub open spec fn rotates_out<N>(trades: Seq<Trade<N>>, from: nat, date: i32) -> bool {
    exists|t: int|
        from <= t < trades.len() && (#[trigger] trades[t]).exit_reason == ExitReason::Rotate
            && trades[t].exit_date == date
}

proof fn lemma_last_rotated<N: Number>(
    account: Account<N>,
    held: Seq<Ranked>,
    day: TradingDay<N>,
    fill: Fill,
    count: nat,
    next: Account<N>,
)
    requires
        count > 0,
        rotated_upto(account, held, day, fill, count, next),
    ensures
        next.trades.len() > 0,
        next.trades.last().exit_reason == ExitReason::Rotate,
        next.trades.last().exit_date == day.date,
{
    let earlier = choose|earlier: Account<N>|
        {
            &&& rotated_upto(account, held, day, fill, (count - 1) as nat, earlier)
            &&& #[trigger] rotate_step(earlier, held[count - 1].name@, day, fill, next)
        };
    assert(rotate_step(earlier, held[count - 1].name@, day, fill, next));
}

/// In an exact format that ranks by value, on no day but the last does a full book stand
/// against a stronger name: if one challenges what the exits of the day left, a position rotates
/// out that day.
pub proof fn full_books_make_room<N: Number>(
    value: spec_fn(N) -> real,
    days: Seq<TradingDay<N>>,
    config: BacktestConfig<N>,
    count: nat,
    account: Account<N>,
    curve: Seq<EquityPoint<N>>,
    next: Account<N>,
    worth: N,
)
    requires
        exact(value),
        ranks_by(value),
        forall|i: int| 0 <= i < days.len() ==> (#[trigger] days[i]).wf(),
        count + 1 < days.len() <= usize::MAX,
        runs_upto(days, crate::portfolio::engine::strategy(config), count, account, curve),
        day_at(
            days,
            crate::portfolio::engine::strategy(config),
            count as int,
            account,
            next,
            worth,
        ),
    ensures
        exists|sold: Account<N>|
            {
                &&& #[trigger] sell_phase_is(
                    account,
                    days[count as int],
                    count as int,
                    false,
                    ExitRules::Barriers(config),
                    sold,
                )
                &&& challenged(value, days[count as int].bars@, sold.holdings, config)
                    ==> rotates_out(next.trades, sold.trades.len(), days[count as int].date)
            },
{
    let strategy = crate::portfolio::engine::strategy(config);
    let (day, index) = (days[count as int], count as usize);
    let rules = strategy.buys;
    run_keeps_sound(days, strategy, count, account, curve);
    assert(day.wf());
    let (sold, filled) = choose|sold: Account<N>, filled: Account<N>|
        {
            &&& sell_phase_is(account, day, index as int, false, strategy.exits, sold)
            &&& #[trigger] opened_is(sold, day, index, false, strategy, filled)
            &&& next == (Account { holdings: marked(filled.holdings, day.bars@), ..filled })
            &&& equity_is(next, worth)
        };
    sell_phase_keeps_sound(
        account,
        day,
        index as int,
        false,
        strategy.exits,
        sold,
        rules.max_holdings,
        strategy.starting_cash,
    );
    let rotated = choose|rotated: Account<N>|
        rotate_phase_is(sold, day, rules, rotated) && #[trigger] buy_phase_is(
            rotated,
            day,
            index,
            rules,
            filled,
        );
    rotate_phase_keeps_sound(sold, day, rules, rotated, index as int, strategy.starting_cash);
    buy_phase_keeps_sound(rotated, day, index, rules, filled, strategy.starting_cash);
    assert(next.trades == rotated.trades);
    if challenged(value, day.bars@, sold.holdings, config) {
        let (weak, rival) = choose|weak: int, rival: int|
            {
                &&& 0 <= weak < day.bars@.len()
                &&& 0 <= rival < day.bars@.len()
                &&& holds(sold.holdings, (#[trigger] day.bars@[weak]).ticker@)
                &&& !holds(sold.holdings, (#[trigger] day.bars@[rival]).ticker@)
                &&& value(day.bars@[rival].bar.score) > value(config.threshold)
                &&& value(day.bars@[rival].bar.score) - value(day.bars@[weak].bar.score)
                    > 585 as real / 100_000 as real
            };
        let (held, turns) = choose|held: Seq<Ranked>, turns: nat| #[trigger]
            rotated_upto(sold, held, day, rules.fill, turns, rotated);
        if turns == 0 {
            assert(rotated == sold);
            beaten_holdings_do_not_stay(
                value,
                sold,
                day,
                rules,
                rotated,
                weak,
                seq![rival],
                value(day.bars@[rival].bar.score),
            );
        }
        lemma_last_rotated(sold, held, day, rules.fill, turns, rotated);
        lemma_turns(sold, held, day, rules.fill, turns, rotated);
        let t = rotated.trades.len() - 1;
        assert(next.trades[t].exit_reason == ExitReason::Rotate);
    }
}

proof fn lemma_turns<N: Number>(
    account: Account<N>,
    held: Seq<Ranked>,
    day: TradingDay<N>,
    fill: Fill,
    count: nat,
    next: Account<N>,
)
    requires
        rotated_upto(account, held, day, fill, count, next),
    ensures
        next.trades.len() == account.trades.len() + count,
    decreases count,
{
    if count > 0 {
        let earlier = choose|earlier: Account<N>|
            {
                &&& rotated_upto(account, held, day, fill, (count - 1) as nat, earlier)
                &&& #[trigger] rotate_step(earlier, held[count - 1].name@, day, fill, next)
            };
        lemma_turns(account, held, day, fill, (count - 1) as nat, earlier);
    }
}

/// The position was opened on day `index` under a bar of that day, and stands at its close.
pub open spec fn opened_today<N>(position: Position<N>, day: TradingDay<N>, index: usize) -> bool {
    &&& position.holding.entry_date == day.date
    &&& position.holding.entry_index == index
    &&& exists|slot: int|
        0 <= slot < day.bars@.len() && (#[trigger] day.bars@[slot]).ticker@ == position.ticker@
            && position.holding.mark == day.bars@[slot].bar.close
}

proof fn lemma_opened_today<N: Number>(
    account: Account<N>,
    list: Seq<Ranked>,
    day: TradingDay<N>,
    index: usize,
    rules: BuyRules<N>,
    target: N,
    count: nat,
    next: Account<N>,
)
    requires
        count <= list.len(),
        forall|k: int| 0 <= k < list.len() ==> stands_for(day.bars@, #[trigger] list[k]),
        buys_upto(account, list, day, index, rules, target, count, next),
    ensures
        account.holdings.is_prefix_of(next.holdings),
        forall|i: int|
            account.holdings.len() <= i < next.holdings.len() ==> opened_today(
                #[trigger] next.holdings[i],
                day,
                index,
            ),
    decreases count,
{
    if count > 0 {
        let before = (count - 1) as nat;
        let entry = day.bars@[list[count - 1].slot as int];
        assert(stands_for(day.bars@, list[count - 1]));
        let earlier = choose|earlier: Account<N>|
            {
                &&& buys_upto(account, list, day, index, rules, target, before, earlier)
                &&& #[trigger] buy_step(earlier, entry, day.date, index, rules, target, next)
            };
        lemma_opened_today(account, list, day, index, rules, target, before, earlier);
        assert forall|i: int|
            account.holdings.len() <= i < next.holdings.len() implies opened_today(
            #[trigger] next.holdings[i],
            day,
            index,
        ) by {
            if i < earlier.holdings.len() {
                assert(next.holdings[i] == earlier.holdings[i]);
            } else {
                let slot = list[count - 1].slot as int;
                assert(day.bars@[slot].ticker@ == next.holdings[i].ticker@);
            }
        }
    }
}

/// Every position that a buy phase opens is dated and numbered by its day and stands at the
/// close of its own bar.
pub proof fn buys_open_today_at_the_close<N: Number>(
    account: Account<N>,
    day: TradingDay<N>,
    index: usize,
    rules: BuyRules<N>,
    next: Account<N>,
)
    requires
        buy_phase_is(account, day, index, rules, next),
    ensures
        account.holdings.is_prefix_of(next.holdings),
        forall|i: int|
            account.holdings.len() <= i < next.holdings.len() ==> opened_today(
                #[trigger] next.holdings[i],
                day,
                index,
            ),
{
    let (target, list) = choose|target: N, list: Seq<Ranked>|
        {
            &&& target_is(account, day.bars@, rules.max_holdings, target)
            &&& #[trigger] candidates_are(day.bars@, account.holdings, rules.threshold, list)
            &&& #[trigger] buys_upto(account, list, day, index, rules, target, list.len(), next)
        };
    let picks = choose|picks: Seq<bool>| #[trigger]
        picks_are(day.bars@, account.holdings, rules.threshold, picks) && strongest_first(
            day.bars@,
            picks,
            list,
        );
    lemma_opened_today(account, list, day, index, rules, target, list.len(), next);
}

/// Of two candidates that score alike, the one whose name comes first has its turn first.
pub proof fn equal_candidates_go_by_name<N: Number>(
    value: spec_fn(N) -> real,
    bars: Seq<TickerBar<N>>,
    holdings: Seq<Position<N>>,
    threshold: N,
    list: Seq<Ranked>,
    i: int,
    j: int,
)
    requires
        ranks_by(value),
        candidates_are(bars, holdings, threshold, list),
        0 <= i < j < list.len(),
        value(bars[list[i].slot as int].bar.score) == value(bars[list[j].slot as int].bar.score),
    ensures
        names_ordered(bars[list[i].slot as int].ticker@, bars[list[j].slot as int].ticker@),
{
    let picks = choose|picks: Seq<bool>| #[trigger]
        picks_are(bars, holdings, threshold, picks) && strongest_first(bars, picks, list);
    assert(stands_for(bars, list[i]) && stands_for(bars, list[j]));
    let (first, second) = (
        bars[list[i].slot as int].bar.score,
        bars[list[j].slot as int].bar.score,
    );
    let r = choose|rank: i64| rank_is(first, rank) && list[i].key == -1 - rank;
    let s = choose|rank: i64| rank_is(second, rank) && list[j].key == -1 - rank;
    assert(rank_is(first, r) && rank_is(second, s));
    assert(in_order(list[i], list[j]));
}

/// Of two holdings that score alike, the one whose name comes first is the first to leave.
pub proof fn equal_holdings_leave_by_name<N: Number>(
    value: spec_fn(N) -> real,
    bars: Seq<TickerBar<N>>,
    holdings: Seq<Position<N>>,
    list: Seq<Ranked>,
    i: int,
    j: int,
)
    requires
        ranks_by(value),
        weakest_are(bars, holdings, list),
        0 <= i < j < list.len(),
        bar_of(bars, list[i].name@) matches Some(first) && bar_of(bars, list[j].name@) matches Some(
            second,
        ) && value(first.score) == value(second.score),
    ensures
        names_ordered(list[i].name@, list[j].name@),
{
    assert(stands_for_holding(bars, holdings, list[i]));
    assert(stands_for_holding(bars, holdings, list[j]));
    let (first, second) = (
        bar_of(bars, list[i].name@)->0.score,
        bar_of(bars, list[j].name@)->0.score,
    );
    assert(rank_is(first, list[i].key) && rank_is(second, list[j].key));
    assert(in_order(list[i], list[j]));
}

} // verus!
