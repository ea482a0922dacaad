//! The portfolio simulation with barrier, time, signal, and rotation exits.
use vstd::prelude::*;

use crate::number::Number;
#[allow(unused_imports)]
use crate::number::{exact, one_result};
#[allow(unused_imports)]
use crate::portfolio::balance::{earned, run_is_worth_what_it_earned};
#[allow(unused_imports)]
use crate::portfolio::books::sell_count;
use crate::portfolio::exits::ExitRules;
#[allow(unused_imports)]
use crate::portfolio::foresight::{logs_agree, runs_agree_on_shared_days, share_days};
#[allow(unused_imports)]
use crate::portfolio::metrics::{final_equity_of, report_is};
use crate::portfolio::orders::BuyRules;
#[allow(unused_imports)]
use crate::portfolio::replay::{
    cash_before, log_stands, lots_in, open_after, paid_buys_leave_no_debt, run_log_stands,
    slots_suffice_at_every_event,
};
#[allow(unused_imports)]
use crate::portfolio::story::{
    adds_up, closed_by, opened_by, time_exits_were_held_long_enough, trades_are_round_trips,
};
use crate::portfolio::simulation::{simulate, Strategy};
#[allow(unused_imports)]
use crate::portfolio::simulation::{run_keeps_sound, runs_upto};
#[allow(unused_imports)]
use crate::portfolio::types::{Account, EquityPoint, ExitReason, Side};
use crate::portfolio::types::{BacktestConfig, BacktestReport, TradingDay};

verus! {

/// How a configuration trades: with barriers, and with rotation.
pub open spec fn strategy<N>(config: BacktestConfig<N>) -> Strategy<N> {
    Strategy {
        starting_cash: config.starting_cash,
        buys: BuyRules {
            threshold: config.threshold,
            fill: config.fill,
            max_holdings: config.max_holdings,
        },
        exits: ExitRules::Barriers(config),
        rotates: true,
    }
}

/// `report` is that of a run over `days`.
pub open spec fn run_is<N: Number>(
    days: Seq<TradingDay<N>>,
    config: BacktestConfig<N>,
    report: BacktestReport<N>,
) -> bool {
    exists|account: Account<N>, curve: Seq<EquityPoint<N>>|
        {
            &&& #[trigger] runs_upto(days, strategy(config), days.len(), account, curve)
            &&& report_is(config.starting_cash, account.trades, account.events, curve, report)
        }
}

/// Run the simulation over `days` (ascending). Each day: run the exit ladder (barriers, the
/// time stop, a model Sell, the final-day liquidation), rotate the weakest holdings out for
/// clearly stronger names, buy into open slots, and mark to the closes.
pub fn run<N: Number>(days: &[TradingDay<N>], config: &BacktestConfig<N>) -> (report:
    BacktestReport<N>)
    requires
        forall|i: int| 0 <= i < days@.len() ==> (#[trigger] days@[i]).wf(),
        days@.len() > 1 ==> config.max_holdings <= u32::MAX,
    ensures
        run_is(days@, *config, report),
{
    let strategy = Strategy {
        starting_cash: config.starting_cash,
        buys: BuyRules {
            threshold: config.threshold,
            fill: config.fill,
            max_holdings: config.max_holdings,
        },
        exits: ExitRules::Barriers(*config),
        rotates: true,
    };
    let (ledger, equity_curve) = simulate(days, &strategy);
    BacktestReport::new(config.starting_cash, ledger.trades, ledger.events, equity_curve)
}

/// Every report has one equity point per day, under that day's date; every buy in its log
/// was sold again, each sell and nothing else has an exit reason, and there are as many
/// trades as sells.
pub proof fn report_accounts_for_every_order<N: Number>(
    days: Seq<TradingDay<N>>,
    config: BacktestConfig<N>,
    report: BacktestReport<N>,
)
    requires
        forall|i: int| 0 <= i < days.len() ==> (#[trigger] days[i]).wf(),
        days.len() <= usize::MAX,
        run_is(days, config, report),
    ensures
        report.trading_days == days.len(),
        report.equity_curve@.len() == days.len(),
        forall|i: int|
            0 <= i < days.len() ==> (#[trigger] report.equity_curve@[i]).date == days[i].date,
        report.trade_count == report.trades@.len(),
        sell_count(report.events@) == report.trades@.len(),
        report.events@.len() == 2 * report.trades@.len(),
        forall|i: int|
            0 <= i < report.events@.len() ==> ((#[trigger] report.events@[i]).side == Side::Sell)
                == (report.events@[i].reason is Some),
{
    let (account, curve) = choose|account: Account<N>, curve: Seq<EquityPoint<N>>|
        {
            &&& #[trigger] runs_upto(days, strategy(config), days.len(), account, curve)
            &&& report_is(config.starting_cash, account.trades, account.events, curve, report)
        };
    run_keeps_sound(days, strategy(config), days.len(), account, curve);
}

proof fn lemma_run_behind<N: Number>(
    days: Seq<TradingDay<N>>,
    config: BacktestConfig<N>,
    report: BacktestReport<N>,
) -> (account: Account<N>)
    requires
        run_is(days, config, report),
    ensures
        runs_upto(days, strategy(config), days.len(), account, report.equity_curve@),
        report.events@ == account.events,
        report.trades@ == account.trades,
        report.final_equity == final_equity_of(config.starting_cash, report.equity_curve@),
{
    let (account, curve) = choose|account: Account<N>, curve: Seq<EquityPoint<N>>|
        {
            &&& #[trigger] runs_upto(days, strategy(config), days.len(), account, curve)
            &&& report_is(config.starting_cash, account.trades, account.events, curve, report)
        };
    account
}

/// The log of a report stands when it is replayed: no buy of an open ticker, no sell of one
/// that is not open, a sell in as many shares as its buy, within the slots and the cash. In
/// the end nothing is open.
pub proof fn report_log_stands<N: Number>(
    days: Seq<TradingDay<N>>,
    config: BacktestConfig<N>,
    report: BacktestReport<N>,
)
    requires
        forall|i: int| 0 <= i < days.len() ==> (#[trigger] days[i]).wf(),
        days.len() <= usize::MAX,
        run_is(days, config, report),
    ensures
        log_stands(report.events@, config.starting_cash, config.max_holdings),
        forall|count: int|
            0 <= count <= report.events@.len() ==> (#[trigger] open_after(
                report.events@.take(count),
            )).dom().len() <= config.max_holdings,
        open_after(report.events@) == Map::<Seq<char>, N>::empty(),
{
    let account = lemma_run_behind(days, config, report);
    run_log_stands(days, strategy(config), account, report.equity_curve@);
    assert forall|count: int| 0 <= count <= report.events@.len() implies (#[trigger] open_after(
        report.events@.take(count),
    )).dom().len() <= config.max_holdings by {
        slots_suffice_at_every_event(
            report.events@,
            config.starting_cash,
            config.max_holdings,
            count,
        );
    }
}

/// In an exact format the books of a report balance: the final equity is the starting cash
/// and the sum of what the trades earned.
pub proof fn report_books_balance<N: Number>(
    value: spec_fn(N) -> real,
    days: Seq<TradingDay<N>>,
    config: BacktestConfig<N>,
    report: BacktestReport<N>,
)
    requires
        exact(value),
        forall|i: int| 0 <= i < days.len() ==> (#[trigger] days[i]).wf(),
        days.len() <= usize::MAX,
        run_is(days, config, report),
    ensures
        value(report.final_equity) == value(config.starting_cash) + earned(value, report.trades@),
{
    let account = lemma_run_behind(days, config, report);
    run_keeps_sound(days, strategy(config), days.len(), account, report.equity_curve@);
    if days.len() > 0 {
        run_is_worth_what_it_earned(
            value,
            days,
            strategy(config),
            account,
            report.equity_curve@,
        );
    }
}

/// In an exact format every trade of a report is a round trip that its days account for: it
/// was opened by a bar above the threshold and closed on a later day, by the rule it names, at
/// the price that rule gives, and its figures add up.
pub proof fn report_trades_are_round_trips<N: Number>(
    value: spec_fn(N) -> real,
    days: Seq<TradingDay<N>>,
    config: BacktestConfig<N>,
    report: BacktestReport<N>,
    t: int,
)
    requires
        exact(value),
        days.len() <= usize::MAX,
        run_is(days, config, report),
        0 <= t < report.trades@.len(),
    ensures
        adds_up(value, report.trades@[t]),
        exists|i: int, slot: int, j: int|
            {
                &&& #[trigger] opened_by(
                    value,
                    days,
                    strategy(config).buys,
                    report.trades@[t],
                    i,
                    slot,
                )
                &&& #[trigger] closed_by(value, days, strategy(config), report.trades@[t], i, j)
            },
{
    let account = lemma_run_behind(days, config, report);
    trades_are_round_trips(
        value,
        days,
        strategy(config),
        days.len(),
        account,
        report.equity_curve@,
        t,
    );
}

/// A trade of a report that left by the time barrier was held for as many trading days as the
/// barrier asks.
pub proof fn report_time_exits_were_held_long_enough<N: Number>(
    days: Seq<TradingDay<N>>,
    config: BacktestConfig<N>,
    report: BacktestReport<N>,
    t: int,
    i: int,
    j: int,
)
    requires
        days.len() <= usize::MAX,
        run_is(days, config, report),
        forall|a: int, b: int|
            0 <= a < b < days.len() ==> (#[trigger] days[a]).date < (#[trigger] days[b]).date,
        0 <= t < report.trades@.len(),
        report.trades@[t].exit_reason == ExitReason::Time,
        0 <= i < days.len(),
        0 <= j < days.len(),
        report.trades@[t].entry_date == days[i].date,
        report.trades@[t].exit_date == days[j].date,
    ensures
        j - i >= config.max_hold_days,
{
    let account = lemma_run_behind(days, config, report);
    time_exits_were_held_long_enough(
        days,
        config,
        strategy(config),
        days.len(),
        account,
        report.equity_curve@,
        t,
        i,
        j,
    );
}

/// In an exact format every buy of a report is of a positive number of whole lots and leaves
/// no debt.
pub proof fn report_buys_leave_no_debt<N: Number>(
    value: spec_fn(N) -> real,
    days: Seq<TradingDay<N>>,
    config: BacktestConfig<N>,
    report: BacktestReport<N>,
    at: int,
)
    requires
        exact(value),
        forall|i: int| 0 <= i < days.len() ==> (#[trigger] days[i]).wf(),
        days.len() <= usize::MAX,
        run_is(days, config, report),
        0 <= at < report.events@.len(),
        report.events@[at].side == Side::Buy,
    ensures
        exists|lots: u64| #[trigger] lots_in(value(report.events@[at].shares), lots),
        value(report.events@[at].cash_after) >= 0 as real,
{
    report_log_stands(days, config, report);
    paid_buys_leave_no_debt(
        value,
        cash_before(report.events@, at, config.starting_cash),
        report.events@[at],
    );
}

/// No order and no mark depends on a later day: reports over days that begin alike agree on
/// the equity curve of those days and on every event of them.
pub proof fn reports_agree_on_shared_days<N: Number>(
    first: Seq<TradingDay<N>>,
    second: Seq<TradingDay<N>>,
    shared: nat,
    config: BacktestConfig<N>,
    left: BacktestReport<N>,
    right: BacktestReport<N>,
)
    requires
        one_result::<N>(),
        share_days(first, second, shared),
        run_is(first, config, left),
        run_is(second, config, right),
    ensures
        left.equity_curve@.take(shared as int) == right.equity_curve@.take(shared as int),
        exists|count: nat|
            logs_agree(first, second, shared, left.events@, right.events@, count),
{
    let one = lemma_run_behind(first, config, left);
    let other = lemma_run_behind(second, config, right);
    runs_agree_on_shared_days(
        first,
        second,
        shared,
        strategy(config),
        (one, left.equity_curve@),
        (other, right.equity_curve@),
    );
}

} // verus!
