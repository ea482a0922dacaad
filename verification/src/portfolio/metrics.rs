//! The performance metrics of a finished run.
use vstd::prelude::*;

use crate::number::{total, Number};
#[allow(unused_imports)]
use crate::number::{
    difference_is, empty_sum_is, exceeds_is, product_is, quotient_is, ratio_is, reaches_is,
    sqrt_is, total_is, unbounded_is,
};
use crate::portfolio::types::{BacktestReport, EquityPoint, Trade, TradeEvent};

verus! {

/// Trading days per year, for the platform's linear annualization.
pub const ANNUAL_TRADING_DAYS: u64 = 252;

/// `mean` is the mean of `values`, zero when there are none.
pub open spec fn mean_is<N: Number>(values: Seq<N>, mean: N) -> bool {
    if values.len() == 0 {
        ratio_is(0, 1, mean)
    } else {
        exists|zero: N, total: N, count: N|
            {
                &&& ratio_is(0, 1, zero)
                &&& #[trigger] total_is(zero, values, total)
                &&& ratio_is(values.len() as u64, 1, count)
                &&& #[trigger] quotient_is(total, count, mean)
            }
    }
}

/// Mean of a list of returns, zero when empty.
pub fn mean<N: Number>(values: &Vec<N>) -> (mean: N)
    ensures
        mean_is(values@, mean),
{
    let zero = N::from_ratio(0, 1);
    if values.len() == 0 {
        return zero;
    }
    let total = total(zero, values);
    let count = N::from_ratio(values.len() as u64, 1);
    let mean = total.over(count);
    assert(quotient_is(total, count, mean));
    mean
}

/// `ratio` is `numerator / denominator`, zero when the denominator is zero.
pub open spec fn fraction_is<N: Number>(numerator: nat, denominator: nat, ratio: N) -> bool {
    if denominator == 0 {
        ratio_is(0, 1, ratio)
    } else {
        ratio_is(numerator as u64, denominator as u64, ratio)
    }
}

/// `numerator / denominator` as a fraction, zero when the denominator is zero.
pub fn ratio<N: Number>(numerator: usize, denominator: usize) -> (ratio: N)
    ensures
        fraction_is(numerator as nat, denominator as nat, ratio),
{
    if denominator == 0 {
        N::from_ratio(0, 1)
    } else {
        N::from_ratio(numerator as u64, denominator as u64)
    }
}

/// `value` is the daily return from one point of the curve to the next.
pub open spec fn daily_return_is<N: Number>(
    earlier: EquityPoint<N>,
    later: EquityPoint<N>,
    value: N,
) -> bool {
    exists|growth: N, one: N|
        {
            &&& quotient_is(later.equity, earlier.equity, growth)
            &&& ratio_is(1, 1, one)
            &&& difference_is(growth, one, value)
        }
}

/// `square` is the squared distance of `value` from `average`.
pub open spec fn squared_distance_is<N: Number>(value: N, average: N, square: N) -> bool {
    exists|distance: N|
        difference_is(value, average, distance) && product_is(distance, distance, square)
}

/// `deviation` is the standard deviation of `values` about `average`.
pub open spec fn deviation_is<N: Number>(values: Seq<N>, average: N, deviation: N) -> bool {
    exists|squares: Seq<N>, variance: N|
        {
            &&& squares.len() == values.len()
            &&& forall|i: int|
                0 <= i < values.len() ==> squared_distance_is(
                    values[i],
                    average,
                    #[trigger] squares[i],
                )
            &&& #[trigger] mean_is(squares, variance)
            &&& sqrt_is(variance, deviation)
        }
}

/// `sharpe` is the annualized Sharpe ratio of returns with this mean and deviation, zero
/// when the deviation is.
pub open spec fn sharpe_ratio_is<N: Number>(average: N, deviation: N, sharpe: N) -> bool {
    exists|zero: N, at_least: bool, at_most: bool|
        {
            &&& ratio_is(0, 1, zero)
            &&& reaches_is(deviation, zero, at_least)
            &&& reaches_is(zero, deviation, at_most)
            &&& if at_least && at_most {
                sharpe == zero
            } else {
                exists|unit: N, year: N, root: N|
                    {
                        &&& quotient_is(average, deviation, unit)
                        &&& ratio_is(ANNUAL_TRADING_DAYS, 1, year)
                        &&& sqrt_is(year, root)
                        &&& product_is(unit, root, sharpe)
                    }
            }
        }
}

/// `sharpe` is the annualized Sharpe ratio of the curve's daily returns, zero when the
/// curve is too short or flat.
pub open spec fn sharpe_is<N: Number>(curve: Seq<EquityPoint<N>>, sharpe: N) -> bool {
    if curve.len() < 2 {
        ratio_is(0, 1, sharpe)
    } else {
        exists|moves: Seq<N>, average: N, deviation: N|
            {
                &&& moves.len() == curve.len() - 1
                &&& forall|i: int|
                    0 <= i < moves.len() ==> daily_return_is(
                        curve[i],
                        curve[i + 1],
                        #[trigger] moves[i],
                    )
                &&& #[trigger] mean_is(moves, average)
                &&& #[trigger] deviation_is(moves, average, deviation)
                &&& sharpe_ratio_is(average, deviation, sharpe)
            }
    }
}

/// Standard deviation of `values` about `average`.
fn deviation<N: Number>(values: &Vec<N>, average: N) -> (deviation: N)
    ensures
        deviation_is(values@, average, deviation),
{
    let mut squares: Vec<N> = Vec::new();
    let mut at: usize = 0;
    while at < values.len()
        invariant
            at <= values.len(),
            squares.len() == at,
            forall|i: int|
                0 <= i < at ==> squared_distance_is(values@[i], average, #[trigger] squares@[i]),
        decreases values.len() - at,
    {
        let distance = values[at].minus(average);
        let square = distance.times(distance);
        assert(squared_distance_is(values@[at as int], average, square));
        squares.push(square);
        at = at + 1;
    }
    let variance = mean(&squares);
    let deviation = variance.sqrt();
    assert(mean_is(squares@, variance));
    deviation
}

/// Annualized Sharpe of the daily equity returns, zero when the curve is too short or flat.
pub fn annualized_sharpe<N: Number>(curve: &Vec<EquityPoint<N>>) -> (sharpe: N)
    ensures
        sharpe_is(curve@, sharpe),
{
    let zero = N::from_ratio(0, 1);
    if curve.len() < 2 {
        return zero;
    }
    let mut moves: Vec<N> = Vec::new();
    let mut at: usize = 0;
    while at < curve.len() - 1
        invariant
            at <= curve.len() - 1,
            curve.len() >= 2,
            moves.len() == at,
            forall|i: int|
                0 <= i < at ==> daily_return_is(curve@[i], curve@[i + 1], #[trigger] moves@[i]),
        decreases curve.len() - at,
    {
        let growth = curve[at + 1].equity.over(curve[at].equity);
        let value = growth.minus(N::from_ratio(1, 1));
        assert(daily_return_is(curve@[at as int], curve@[at + 1], value));
        moves.push(value);
        at = at + 1;
    }
    let average = mean(&moves);
    let deviation = deviation(&moves, average);
    assert(mean_is(moves@, average));
    assert(deviation_is(moves@, average, deviation));
    let at_least = deviation.reaches(zero);
    let at_most = zero.reaches(deviation);
    let sharpe = if at_least && at_most {
        zero
    } else {
        average.over(deviation).times(N::from_ratio(ANNUAL_TRADING_DAYS, 1).sqrt())
    };
    assert(sharpe_ratio_is(average, deviation, sharpe));
    sharpe
}

/// Profit and return on cost of one closed trade.
#[derive(Clone, Copy)]
pub struct Outcome<N> {
    pub pnl: N,
    pub return_pct: N,
}

/// The outcomes of `trades`.
pub open spec fn outcomes<N>(trades: Seq<Trade<N>>) -> Seq<Outcome<N>> {
    trades.map_values(|trade: Trade<N>| Outcome { pnl: trade.pnl, return_pct: trade.return_pct })
}

/// The values at the places that `picks` marks, in their order.
pub open spec fn picked<T>(values: Seq<T>, picks: Seq<bool>) -> Seq<T>
    decreases values.len(),
{
    if values.len() == 0 {
        Seq::empty()
    } else if picks[values.len() - 1] {
        picked(values.drop_last(), picks).push(values.last())
    } else {
        picked(values.drop_last(), picks)
    }
}

/// `wins` says of each outcome whether its profit is above zero.
pub open spec fn wins_are<N: Number>(list: Seq<Outcome<N>>, wins: Seq<bool>) -> bool {
    &&& wins.len() == list.len()
    &&& forall|i: int| 0 <= i < list.len() ==> win_is(list[i], #[trigger] wins[i])
}

/// Whether an outcome is above zero is `win`.
pub open spec fn win_is<N: Number>(outcome: Outcome<N>, win: bool) -> bool {
    exists|zero: N| ratio_is(0, 1, zero) && exceeds_is(outcome.pnl, zero, win)
}

/// `losses` says of each outcome whether its profit is below zero.
pub open spec fn losses_are<N: Number>(list: Seq<Outcome<N>>, losses: Seq<bool>) -> bool {
    &&& losses.len() == list.len()
    &&& forall|i: int| 0 <= i < list.len() ==> loss_is(list[i], #[trigger] losses[i])
}

/// Whether an outcome is below zero is `loss`.
pub open spec fn loss_is<N: Number>(outcome: Outcome<N>, loss: bool) -> bool {
    exists|zero: N| ratio_is(0, 1, zero) && exceeds_is(zero, outcome.pnl, loss)
}

/// The profits of a list of outcomes.
pub open spec fn profits<N>(list: Seq<Outcome<N>>) -> Seq<N> {
    list.map_values(|outcome: Outcome<N>| outcome.pnl)
}

/// The returns on cost of a list of outcomes.
pub open spec fn returns_on_cost<N>(list: Seq<Outcome<N>>) -> Seq<N> {
    list.map_values(|outcome: Outcome<N>| outcome.return_pct)
}

/// `sum` is the sum of `values`.
pub open spec fn summed<N: Number>(values: Seq<N>, sum: N) -> bool {
    exists|start: N| empty_sum_is(start) && #[trigger] total_is(start, values, sum)
}

/// `factor` is gross profit over gross loss: unbounded with a profit and no loss, zero
/// with neither.
pub open spec fn profit_factor_is<N: Number>(gain: N, loss: N, factor: N) -> bool {
    exists|zero: N, lost: bool|
        {
            &&& ratio_is(0, 1, zero)
            &&& exceeds_is(zero, loss, lost)
            &&& if lost {
                exists|owed: N| difference_is(zero, loss, owed) && quotient_is(gain, owed, factor)
            } else {
                exists|gained: bool|
                    exceeds_is(gain, zero, gained) && if gained {
                        unbounded_is(factor)
                    } else {
                        factor == zero
                    }
            }
        }
}

/// Gross profit over gross loss.
fn profit_factor<N: Number>(gain: N, loss: N) -> (factor: N)
    ensures
        profit_factor_is(gain, loss, factor),
{
    let zero = N::from_ratio(0, 1);
    if zero.exceeds(loss) {
        // The loss total is negative, so it is negated for the ratio.
        gain.over(zero.minus(loss))
    } else if gain.exceeds(zero) {
        N::unbounded()
    } else {
        zero
    }
}

/// The metrics that every backtest reports.
#[derive(Clone, Copy)]
pub struct Figures<N> {
    pub final_equity: N,
    pub cumulative_return: N,
    pub annualized_return: N,
    pub win_rate: N,
    pub profit_factor: N,
    pub avg_win_return: N,
    pub avg_loss_return: N,
}

/// The account value at the end: the last point of the curve, the opening balance where
/// there is none.
pub open spec fn final_equity_of<N>(starting_cash: N, curve: Seq<EquityPoint<N>>) -> N {
    if curve.len() == 0 {
        starting_cash
    } else {
        curve.last().equity
    }
}

/// `cumulative` is the return of the whole run on the opening balance.
pub open spec fn cumulative_is<N: Number>(
    starting_cash: N,
    final_equity: N,
    cumulative: N,
) -> bool {
    exists|gained: N|
        difference_is(final_equity, starting_cash, gained) && quotient_is(
            gained,
            starting_cash,
            cumulative,
        )
}

/// `annualized` is the linear annualization of the run's return, zero for no trading days.
pub open spec fn annualized_is<N: Number>(cumulative: N, days: nat, annualized: N) -> bool {
    if days == 0 {
        ratio_is(0, 1, annualized)
    } else {
        exists|count: N, daily: N, year: N|
            {
                &&& ratio_is(days as u64, 1, count)
                &&& quotient_is(cumulative, count, daily)
                &&& ratio_is(ANNUAL_TRADING_DAYS, 1, year)
                &&& product_is(daily, year, annualized)
            }
    }
}

/// The trade figures are those of the outcomes `list`, of which `wins` and `losses` mark
/// the ones above and below zero: the share of wins, gross profit over gross loss, and the
/// mean returns of both.
pub open spec fn trade_figures_are<N: Number>(
    list: Seq<Outcome<N>>,
    wins: Seq<bool>,
    losses: Seq<bool>,
    figures: Figures<N>,
) -> bool {
    &&& fraction_is(picked(list, wins).len(), list.len(), figures.win_rate)
    &&& exists|gain: N, loss: N|
        {
            &&& summed(profits(picked(list, wins)), gain)
            &&& summed(profits(picked(list, losses)), loss)
            &&& #[trigger] profit_factor_is(gain, loss, figures.profit_factor)
        }
    &&& mean_is(returns_on_cost(picked(list, wins)), figures.avg_win_return)
    &&& mean_is(returns_on_cost(picked(list, losses)), figures.avg_loss_return)
}

/// `figures` are the metrics of a run.
pub open spec fn figures_are<N: Number>(
    starting_cash: N,
    list: Seq<Outcome<N>>,
    curve: Seq<EquityPoint<N>>,
    figures: Figures<N>,
) -> bool {
    &&& figures.final_equity == final_equity_of(starting_cash, curve)
    &&& cumulative_is(starting_cash, figures.final_equity, figures.cumulative_return)
    &&& annualized_is(figures.cumulative_return, curve.len(), figures.annualized_return)
    &&& exists|wins: Seq<bool>, losses: Seq<bool>|
        {
            &&& wins_are(list, wins)
            &&& losses_are(list, losses)
            &&& #[trigger] trade_figures_are(list, wins, losses, figures)
        }
}

/// Which outcomes are above zero.
fn wins<N: Number>(list: &Vec<Outcome<N>>) -> (wins: Vec<bool>)
    ensures
        wins_are(list@, wins@),
{
    let zero = N::from_ratio(0, 1);
    let mut wins: Vec<bool> = Vec::new();
    let mut at: usize = 0;
    while at < list.len()
        invariant
            at <= list.len(),
            wins.len() == at,
            ratio_is(0, 1, zero),
            forall|i: int| 0 <= i < at ==> win_is(list@[i], #[trigger] wins@[i]),
        decreases list.len() - at,
    {
        let win = list[at].pnl.exceeds(zero);
        assert(win_is(list@[at as int], win));
        wins.push(win);
        at = at + 1;
    }
    wins
}

/// Which outcomes are below zero.
fn losses<N: Number>(list: &Vec<Outcome<N>>) -> (losses: Vec<bool>)
    ensures
        losses_are(list@, losses@),
{
    let zero = N::from_ratio(0, 1);
    let mut losses: Vec<bool> = Vec::new();
    let mut at: usize = 0;
    while at < list.len()
        invariant
            at <= list.len(),
            losses.len() == at,
            ratio_is(0, 1, zero),
            forall|i: int| 0 <= i < at ==> loss_is(list@[i], #[trigger] losses@[i]),
        decreases list.len() - at,
    {
        let loss = zero.exceeds(list[at].pnl);
        assert(loss_is(list@[at as int], loss));
        losses.push(loss);
        at = at + 1;
    }
    losses
}

/// Profits and returns of the outcomes that `picks` marks, as two lists.
fn split_picked<N: Number>(list: &Vec<Outcome<N>>, picks: &Vec<bool>) -> (columns: (
    Vec<N>,
    Vec<N>,
))
    requires
        picks.len() == list.len(),
    ensures
        columns.0@ == profits(picked(list@, picks@)),
        columns.1@ == returns_on_cost(picked(list@, picks@)),
{
    let mut pnl: Vec<N> = Vec::new();
    let mut return_pct: Vec<N> = Vec::new();
    let mut at: usize = 0;
    while at < list.len()
        invariant
            at <= list.len(),
            picks.len() == list.len(),
            pnl@ =~= profits(picked(list@.take(at as int), picks@)),
            return_pct@ =~= returns_on_cost(picked(list@.take(at as int), picks@)),
        decreases list.len() - at,
    {
        assert(list@.take(at + 1).drop_last() =~= list@.take(at as int));
        if picks[at] {
            pnl.push(list[at].pnl);
            return_pct.push(list[at].return_pct);
        }
        at = at + 1;
    }
    assert(list@.take(at as int) =~= list@);
    (pnl, return_pct)
}

/// The metrics of a run that closed trades with the outcomes `list` and whose equity went
/// along `curve`.
pub fn figures<N: Number>(
    starting_cash: N,
    list: &Vec<Outcome<N>>,
    curve: &Vec<EquityPoint<N>>,
) -> (figures: Figures<N>)
    ensures
        figures_are(starting_cash, list@, curve@, figures),
{
    let zero = N::from_ratio(0, 1);
    let final_equity = if curve.len() == 0 {
        starting_cash
    } else {
        curve[curve.len() - 1].equity
    };
    let cumulative_return = final_equity.minus(starting_cash).over(starting_cash);
    let annualized_return = if curve.len() == 0 {
        zero
    } else {
        let daily = cumulative_return.over(N::from_ratio(curve.len() as u64, 1));
        daily.times(N::from_ratio(ANNUAL_TRADING_DAYS, 1))
    };
    let wins = wins(list);
    let losses = losses(list);
    let (win_profits, win_returns) = split_picked(list, &wins);
    let (loss_profits, loss_returns) = split_picked(list, &losses);
    let start = N::empty_sum();
    let gain = total(start, &win_profits);
    let loss = total(start, &loss_profits);
    let figures = Figures {
        final_equity,
        cumulative_return,
        annualized_return,
        win_rate: ratio(win_profits.len(), list.len()),
        profit_factor: profit_factor(gain, loss),
        avg_win_return: mean(&win_returns),
        avg_loss_return: mean(&loss_returns),
    };
    proof {
        assert(total_is(start, win_profits@, gain));
        assert(summed(profits(picked(list@, wins@)), gain));
        assert(summed(profits(picked(list@, losses@)), loss));
        assert(profit_factor_is(gain, loss, figures.profit_factor));
        assert(trade_figures_are(list@, wins@, losses@, figures));
    }
    figures
}

/// `report` holds the metrics of a run and what it was made from.
pub open spec fn report_is<N: Number>(
    starting_cash: N,
    trades: Seq<Trade<N>>,
    events: Seq<TradeEvent<N>>,
    curve: Seq<EquityPoint<N>>,
    report: BacktestReport<N>,
) -> bool {
    &&& report.starting_cash == starting_cash
    &&& report.trades@ == trades
    &&& report.events@ == events
    &&& report.equity_curve@ == curve
    &&& report.trade_count == trades.len()
    &&& report.trading_days == curve.len()
    &&& sharpe_is(curve, report.sharpe)
    &&& figures_are(
        starting_cash,
        outcomes(trades),
        curve,
        Figures {
            final_equity: report.final_equity,
            cumulative_return: report.cumulative_return,
            annualized_return: report.annualized_return,
            win_rate: report.win_rate,
            profit_factor: report.profit_factor,
            avg_win_return: report.avg_win_return,
            avg_loss_return: report.avg_loss_return,
        },
    )
}

/// The outcome of each trade.
pub fn trade_outcomes<N: Number>(trades: &Vec<Trade<N>>) -> (list: Vec<Outcome<N>>)
    ensures
        list@ == outcomes(trades@),
{
    let mut list: Vec<Outcome<N>> = Vec::new();
    let mut at: usize = 0;
    while at < trades.len()
        invariant
            at <= trades.len(),
            list@ =~= outcomes(trades@.take(at as int)),
        decreases trades.len() - at,
    {
        list.push(Outcome { pnl: trades[at].pnl, return_pct: trades[at].return_pct });
        at = at + 1;
    }
    assert(trades@.take(at as int) =~= trades@);
    list
}

impl<N: Number> BacktestReport<N> {
    /// Work the metrics of a finished run out.
    pub fn new(
        starting_cash: N,
        trades: Vec<Trade<N>>,
        events: Vec<TradeEvent<N>>,
        equity_curve: Vec<EquityPoint<N>>,
    ) -> (report: Self)
        ensures
            report_is(starting_cash, trades@, events@, equity_curve@, report),
    {
        let list = trade_outcomes(&trades);
        let figures = figures(starting_cash, &list, &equity_curve);
        let sharpe = annualized_sharpe(&equity_curve);
        BacktestReport {
            starting_cash,
            final_equity: figures.final_equity,
            cumulative_return: figures.cumulative_return,
            annualized_return: figures.annualized_return,
            trade_count: trades.len(),
            win_rate: figures.win_rate,
            profit_factor: figures.profit_factor,
            avg_win_return: figures.avg_win_return,
            avg_loss_return: figures.avg_loss_return,
            sharpe,
            trading_days: equity_curve.len(),
            equity_curve,
            trades,
            events,
        }
    }
}

} // verus!
