//! Stateful long-only portfolio simulation under the platform's rules: equal weight across
//! at most so many holdings, whole 1,000-share lots, buys at the day's low and sells at the
//! high (snapped to a legal tick in range), 0.1425% commission per side, 0.3% sell-only tax.
//! Signals and prices go in, a report comes out; profit is realized only on a sell.
//!
//! The simulation here goes by the model's signals alone. The one in [`engine`] adds price
//! barriers, a time stop, and rotation.
use vstd::prelude::*;
use vstd::string::StringExecFns;

use crate::number::Number;
#[allow(unused_imports)]
use crate::number::{one_result, text_is};
use crate::portfolio::exits::ExitRules;
#[allow(unused_imports)]
use crate::portfolio::foresight::{runs_agree_on_shared_days, share_days};
#[allow(unused_imports)]
use crate::portfolio::metrics::{figures_are, outcomes, Figures};
use crate::portfolio::metrics::{figures, trade_outcomes};
use crate::portfolio::orders::BuyRules;
use crate::portfolio::report::{factor_text, percent_text};
#[allow(unused_imports)]
use crate::portfolio::report::{factor_is, percent_is};
use crate::portfolio::simulation::{simulate, Strategy};
#[allow(unused_imports)]
use crate::portfolio::simulation::{run_keeps_sound, runs_upto};
#[allow(unused_imports)]
use crate::portfolio::types::Account;
use crate::portfolio::types::{EquityPoint, Fill, Trade, TradingDay};
use crate::text::{decimal_text, right_aligned};
#[allow(unused_imports)]
use crate::text::{decimal, pad_left};

pub mod balance;
pub mod books;
pub mod engine;
pub mod eviction;
pub mod exits;
pub mod fills;
pub mod foresight;
pub mod manner;
pub mod metrics;
pub mod orders;
pub mod performance;
pub mod pricing;
pub mod ranking;
pub mod replay;
pub mod report;
pub mod rotation;
pub mod simulation;
pub mod sizing;
pub mod story;
pub mod types;
pub mod verdict;

verus! {

/// The platform's simulated starting balance.
pub const STARTING_CASH: u64 = 100_000_000;

/// Knobs that shape one backtest run.
#[derive(Clone, Copy)]
pub struct BacktestConfig<N> {
    /// Score that a stock has to exceed to be bought.
    pub threshold: N,
    /// Which prices fills happen at.
    pub fill: Fill,
    /// Most stocks held at once; each new buy targets `equity / max_holdings`.
    pub max_holdings: usize,
    /// Opening balance.
    pub starting_cash: N,
}

/// The backtest outcome and the platform's performance metrics.
pub struct BacktestReport<N> {
    pub starting_cash: N,
    pub final_equity: N,
    pub cumulative_return: N,
    pub annualized_return: N,
    pub trade_count: usize,
    pub win_rate: N,
    pub profit_factor: N,
    pub avg_win_return: N,
    pub avg_loss_return: N,
    pub trading_days: usize,
    pub equity_curve: Vec<EquityPoint<N>>,
}

/// How a configuration trades: on the signals alone, without rotation.
pub open spec fn strategy<N>(config: BacktestConfig<N>) -> Strategy<N> {
    Strategy {
        starting_cash: config.starting_cash,
        buys: BuyRules {
            threshold: config.threshold,
            fill: config.fill,
            max_holdings: config.max_holdings,
        },
        exits: ExitRules::Signals(config.fill),
        rotates: false,
    }
}

/// `report` holds the metrics of a run and its equity curve.
pub open spec fn report_is<N: Number>(
    starting_cash: N,
    trades: Seq<Trade<N>>,
    curve: Seq<EquityPoint<N>>,
    report: BacktestReport<N>,
) -> bool {
    &&& report.starting_cash == starting_cash
    &&& report.equity_curve@ == curve
    &&& report.trade_count == trades.len()
    &&& report.trading_days == curve.len()
    &&& figures_are(
        starting_cash,
        outcomes(trades),
        curve,
        Figures {
            final_equity: report.final_equity,
            cumulative_return: report.cumulative_return,
            annualized_return: report.annualized_return,
            win_rate: report.win_rate,
            profit_factor: report.profit_factor,
            avg_win_return: report.avg_win_return,
            avg_loss_return: report.avg_loss_return,
        },
    )
}

impl<N: Number> BacktestReport<N> {
    /// Work the metrics of a finished run out.
    pub fn new(
        starting_cash: N,
        trades: &Vec<Trade<N>>,
        equity_curve: Vec<EquityPoint<N>>,
    ) -> (report: Self)
        ensures
            report_is(starting_cash, trades@, equity_curve@, report),
    {
        let list = trade_outcomes(trades);
        let figures = figures(starting_cash, &list, &equity_curve);
        BacktestReport {
            starting_cash,
            final_equity: figures.final_equity,
            cumulative_return: figures.cumulative_return,
            annualized_return: figures.annualized_return,
            trade_count: trades.len(),
            win_rate: figures.win_rate,
            profit_factor: figures.profit_factor,
            avg_win_return: figures.avg_win_return,
            avg_loss_return: figures.avg_loss_return,
            trading_days: equity_curve.len(),
            equity_curve,
        }
    }
}

/// `report` is that of a run over `days`.
pub open spec fn run_is<N: Number>(
    days: Seq<TradingDay<N>>,
    config: BacktestConfig<N>,
    report: BacktestReport<N>,
) -> bool {
    exists|account: Account<N>, curve: Seq<EquityPoint<N>>|
        {
            &&& #[trigger] runs_upto(days, strategy(config), days.len(), account, curve)
            &&& report_is(config.starting_cash, account.trades, curve, report)
        }
}

/// Run the simulation over `days` (ascending). Each day: sell Sell-flagged holdings (and
/// all on the final day), buy the strongest above-threshold names into open slots, and mark
/// to the closes.
pub fn run<N: Number>(days: &[TradingDay<N>], config: &BacktestConfig<N>) -> (report:
    BacktestReport<N>)
    requires
        forall|i: int| 0 <= i < days@.len() ==> (#[trigger] days@[i]).wf(),
        days@.len() > 1 ==> config.max_holdings <= u32::MAX,
    ensures
        run_is(days@, *config, report),
{
    let strategy = Strategy {
        starting_cash: config.starting_cash,
        buys: BuyRules {
            threshold: config.threshold,
            fill: config.fill,
            max_holdings: config.max_holdings,
        },
        exits: ExitRules::Signals(config.fill),
        rotates: false,
    };
    let (ledger, equity_curve) = simulate(days, &strategy);
    BacktestReport::new(config.starting_cash, &ledger.trades, equity_curve)
}

/// Every report has one equity point per day, under that day's date.
pub proof fn report_has_every_day<N: Number>(
    days: Seq<TradingDay<N>>,
    config: BacktestConfig<N>,
    report: BacktestReport<N>,
)
    requires
        forall|i: int| 0 <= i < days.len() ==> (#[trigger] days[i]).wf(),
        days.len() <= usize::MAX,
        run_is(days, config, report),
    ensures
        report.trading_days == days.len(),
        report.equity_curve@.len() == days.len(),
        forall|i: int|
            0 <= i < days.len() ==> (#[trigger] report.equity_curve@[i]).date == days[i].date,
{
    let (account, curve) = choose|account: Account<N>, curve: Seq<EquityPoint<N>>|
        {
            &&& #[trigger] runs_upto(days, strategy(config), days.len(), account, curve)
            &&& report_is(config.starting_cash, account.trades, curve, report)
        };
    run_keeps_sound(days, strategy(config), days.len(), account, curve);
}

/// No mark depends on a later day: reports over days that begin alike agree on the equity
/// curve of those days.
pub proof fn curves_agree_on_shared_days<N: Number>(
    first: Seq<TradingDay<N>>,
    second: Seq<TradingDay<N>>,
    shared: nat,
    config: BacktestConfig<N>,
    left: BacktestReport<N>,
    right: BacktestReport<N>,
)
    requires
        one_result::<N>(),
        share_days(first, second, shared),
        run_is(first, config, left),
        run_is(second, config, right),
    ensures
        left.equity_curve@.take(shared as int) == right.equity_curve@.take(shared as int),
{
    let one = choose|account: Account<N>| #[trigger]
        runs_upto(first, strategy(config), first.len(), account, left.equity_curve@);
    let other = choose|account: Account<N>| #[trigger]
        runs_upto(second, strategy(config), second.len(), account, right.equity_curve@);
    runs_agree_on_shared_days(
        first,
        second,
        shared,
        strategy(config),
        (one, left.equity_curve@),
        (other, right.equity_curve@),
    );
}

/// The numbers of a rendered report, as text.
pub struct RenderParts {
    pub opening: Seq<char>,
    pub closing: Seq<char>,
    pub cumulative: Seq<char>,
    pub annualized: Seq<char>,
    pub win_rate: Seq<char>,
    pub factor: Seq<char>,
    pub win: Seq<char>,
    pub loss: Seq<char>,
}

/// `parts` are the numbers of the report, each in its own format.
pub open spec fn parts_are<N: Number>(report: BacktestReport<N>, parts: RenderParts) -> bool {
    &&& text_is(report.starting_cash, 0, false, parts.opening)
    &&& text_is(report.final_equity, 0, false, parts.closing)
    &&& percent_is(report.cumulative_return, 2, true, parts.cumulative)
    &&& percent_is(report.annualized_return, 2, true, parts.annualized)
    &&& percent_is(report.win_rate, 1, false, parts.win_rate)
    &&& factor_is(report.profit_factor, "inf (no losing trades)"@, parts.factor)
    &&& percent_is(report.avg_win_return, 2, true, parts.win)
    &&& percent_is(report.avg_loss_return, 2, true, parts.loss)
}

/// `text` is the report as it is printed.
pub open spec fn rendered<N: Number>(report: BacktestReport<N>, text: Seq<char>) -> bool {
    exists|parts: RenderParts| #[trigger]
        parts_are(report, parts) && text == "Portfolio backtest ("@ + decimal(
            report.trading_days as nat,
        ) + " trading days):\n"@ + "  starting cash    : "@ + pad_left(parts.opening, 16) + "\n"@
            + "  final equity     : "@ + pad_left(parts.closing, 16) + "\n"@
            + "  cumulative return: "@ + parts.cumulative + "%\n"@ + "  annualized       : "@
            + parts.annualized + "%\n"@ + "  trades           : "@ + decimal(
            report.trade_count as nat,
        ) + "\n"@ + "  win rate         : "@ + parts.win_rate + "%\n"@ + "  profit factor    : "@
            + parts.factor + "\n"@ + "  avg win / loss   : "@ + parts.win + "% / "@ + parts.loss
            + "%\n"@
}

/// The platform's performance metrics as text, one line each.
pub fn render<N: Number>(report: &BacktestReport<N>) -> (text: String)
    ensures
        rendered(*report, text@),
{
    let opening = report.starting_cash.text(0, false);
    let closing = report.final_equity.text(0, false);
    let cumulative = percent_text(report.cumulative_return, 2, true);
    let annualized = percent_text(report.annualized_return, 2, true);
    let win_rate = percent_text(report.win_rate, 1, false);
    let factor = factor_text(report.profit_factor, "inf (no losing trades)");
    let win = percent_text(report.avg_win_return, 2, true);
    let loss = percent_text(report.avg_loss_return, 2, true);
    let ghost parts = RenderParts {
        opening: opening@,
        closing: closing@,
        cumulative: cumulative@,
        annualized: annualized@,
        win_rate: win_rate@,
        factor: factor@,
        win: win@,
        loss: loss@,
    };
    proof {
        assert(text_is(report.starting_cash, 0, false, opening@));
        assert(text_is(report.final_equity, 0, false, closing@));
        assert(parts_are(*report, parts));
    }
    let mut text = String::from_str("Portfolio backtest (");
    text.append(decimal_text(report.trading_days as u64).as_str());
    text.append(" trading days):\n");
    text.append("  starting cash    : ");
    text.append(right_aligned(opening.as_str(), 16).as_str());
    text.append("\n");
    text.append("  final equity     : ");
    text.append(right_aligned(closing.as_str(), 16).as_str());
    text.append("\n");
    text.append("  cumulative return: ");
    text.append(cumulative.as_str());
    text.append("%\n");
    text.append("  annualized       : ");
    text.append(annualized.as_str());
    text.append("%\n");
    text.append("  trades           : ");
    text.append(decimal_text(report.trade_count as u64).as_str());
    text.append("\n");
    text.append("  win rate         : ");
    text.append(win_rate.as_str());
    text.append("%\n");
    text.append("  profit factor    : ");
    text.append(factor.as_str());
    text.append("\n");
    text.append("  avg win / loss   : ");
    text.append(win.as_str());
    text.append("% / ");
    text.append(loss.as_str());
    text.append("%\n");
    text
}

} // verus!
