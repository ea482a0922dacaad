//! What the performance figures of a run say of its trades and its equity.
use vstd::prelude::*;

use crate::number::Number;
#[allow(unused_imports)]
use crate::number::{
    difference_is, empty_sum_is, exact, exceeds_is, product_is, quotient_is, ratio_is, reaches_is,
    sqrt_is, total_is, unbounded_is,
};
#[allow(unused_imports)]
use crate::portfolio::balance::earned;
#[allow(unused_imports)]
use crate::portfolio::metrics::{
    annualized_is, cumulative_is, daily_return_is, deviation_is, figures_are, final_equity_of,
    fraction_is, loss_is, losses_are, mean_is, outcomes, picked, profit_factor_is, profits,
    report_is, returns_on_cost, sharpe_is, sharpe_ratio_is, squared_distance_is, summed,
    trade_figures_are, win_is, wins_are, Figures, Outcome, ANNUAL_TRADING_DAYS,
};
#[allow(unused_imports)]
use crate::portfolio::types::{BacktestReport, EquityPoint, Trade, TradeEvent};
#[allow(unused_imports)]
use crate::reals::{
    has_roots, lemma_quotient, lemma_ratio, lemma_whole, real_mean, real_sum, reals, square_sum,
    totals_are_sums,
};

verus! {

/// Which side of zero `x` lies on: one above, minus one below, zero at it.
pub open spec fn side_of(x: real) -> int {
    if x > 0 as real {
        1
    } else if x < 0 as real {
        -1
    } else {
        0
    }
}

/// How many outcomes lie on `side` of zero.
pub open spec fn count_on<N>(value: spec_fn(N) -> real, list: Seq<Outcome<N>>, side: int) -> nat
    decreases list.len(),
{
    if list.len() == 0 {
        0
    } else {
        count_on(value, list.drop_last(), side) + if side_of(value(list.last().pnl)) == side {
            1nat
        } else {
            0nat
        }
    }
}

/// What the outcomes on `side` of zero earned together.
pub open spec fn earned_on<N>(value: spec_fn(N) -> real, list: Seq<Outcome<N>>, side: int) -> real
    decreases list.len(),
{
    if list.len() == 0 {
        0 as real
    } else {
        earned_on(value, list.drop_last(), side) + if side_of(value(list.last().pnl)) == side {
            value(list.last().pnl)
        } else {
            0 as real
        }
    }
}

/// The returns on cost of the outcomes on `side` of zero, added up.
pub open spec fn returns_on<N>(
    value: spec_fn(N) -> real,
    list: Seq<Outcome<N>>,
    side: int,
) -> real
    decreases list.len(),
{
    if list.len() == 0 {
        0 as real
    } else {
        returns_on(value, list.drop_last(), side) + if side_of(value(list.last().pnl)) == side {
            value(list.last().return_pct)
        } else {
            0 as real
        }
    }
}

proof fn lemma_picked<N: Number>(
    value: spec_fn(N) -> real,
    list: Seq<Outcome<N>>,
    picks: Seq<bool>,
    side: int,
)
    requires
        picks.len() >= list.len(),
        forall|i: int|
            0 <= i < list.len() ==> (#[trigger] picks[i] <==> side_of(value(list[i].pnl)) == side),
    ensures
        picked(list, picks).len() == count_on(value, list, side) <= list.len(),
        real_sum(reals(value, profits(picked(list, picks)))) == earned_on(value, list, side),
        real_sum(reals(value, returns_on_cost(picked(list, picks)))) == returns_on(
            value,
            list,
            side,
        ),
    decreases list.len(),
{
    if list.len() > 0 {
        let shorter = list.drop_last();
        let last = list.len() - 1;
        assert forall|i: int| 0 <= i < shorter.len() implies (#[trigger] picks[i] <==> side_of(
            value(shorter[i].pnl),
        ) == side) by {
            assert(list[i] == shorter[i]);
        }
        lemma_picked(value, shorter, picks, side);
        assert(picks[last] <==> side_of(value(list[last].pnl)) == side);
        if picks[last] {
            let (earlier, all) = (picked(shorter, picks), picked(list, picks));
            assert(reals(value, profits(all)).drop_last() =~= reals(value, profits(earlier)));
            assert(reals(value, returns_on_cost(all)).drop_last() =~= reals(
                value,
                returns_on_cost(earlier),
            ));
        }
    } else {
        assert(profits(picked(list, picks)) =~= Seq::<N>::empty());
    }
}

proof fn lemma_sides<N: Number>(value: spec_fn(N) -> real, list: Seq<Outcome<N>>)
    ensures
        earned_on(value, list, 1) >= 0 as real,
        earned_on(value, list, -1) <= 0 as real,
        count_on(value, list, 1) > 0 <==> earned_on(value, list, 1) > 0 as real,
        count_on(value, list, -1) > 0 <==> earned_on(value, list, -1) < 0 as real,
    decreases list.len(),
{
    if list.len() > 0 {
        lemma_sides(value, list.drop_last());
    }
}

proof fn lemma_mean<N: Number>(value: spec_fn(N) -> real, values: Seq<N>, mean: N)
    requires
        exact(value),
        mean_is(values, mean),
        values.len() <= u64::MAX,
    ensures
        value(mean) * (values.len() as int as real) == real_sum(reals(value, values)),
        values.len() == 0 ==> value(mean) == 0 as real,
        values.len() > 0 ==> value(mean) == real_mean(reals(value, values)),
{
    if values.len() == 0 {
        lemma_whole(value, 0, mean);
    } else {
        let (zero, total, count) = choose|zero: N, total: N, count: N|
            {
                &&& ratio_is(0, 1, zero)
                &&& #[trigger] total_is(zero, values, total)
                &&& ratio_is(values.len() as u64, 1, count)
                &&& #[trigger] quotient_is(total, count, mean)
            };
        lemma_whole(value, 0, zero);
        lemma_whole(value, values.len() as u64, count);
        totals_are_sums(value, zero, values, total);
        lemma_quotient(value, total, count, mean);
    }
}

proof fn lemma_figures<N: Number>(
    value: spec_fn(N) -> real,
    starting_cash: N,
    list: Seq<Outcome<N>>,
    curve: Seq<EquityPoint<N>>,
    figures: Figures<N>,
) -> (marks: (Seq<bool>, Seq<bool>))
    requires
        exact(value),
        figures_are(starting_cash, list, curve, figures),
    ensures
        trade_figures_are(list, marks.0, marks.1, figures),
        picked(list, marks.0).len() == count_on(value, list, 1) <= list.len(),
        picked(list, marks.1).len() == count_on(value, list, -1) <= list.len(),
        real_sum(reals(value, profits(picked(list, marks.0)))) == earned_on(value, list, 1),
        real_sum(reals(value, profits(picked(list, marks.1)))) == earned_on(value, list, -1),
        real_sum(reals(value, returns_on_cost(picked(list, marks.0)))) == returns_on(
            value,
            list,
            1,
        ),
        real_sum(reals(value, returns_on_cost(picked(list, marks.1)))) == returns_on(
            value,
            list,
            -1,
        ),
{
    let (wins, losses) = choose|wins: Seq<bool>, losses: Seq<bool>|
        {
            &&& wins_are(list, wins)
            &&& losses_are(list, losses)
            &&& #[trigger] trade_figures_are(list, wins, losses, figures)
        };
    assert forall|i: int| 0 <= i < list.len() implies (#[trigger] wins[i] <==> side_of(
        value(list[i].pnl),
    ) == 1) by {
        assert(win_is(list[i], wins[i]));
        let zero = choose|zero: N| ratio_is(0, 1, zero) && exceeds_is(list[i].pnl, zero, wins[i]);
        lemma_whole(value, 0, zero);
    }
    assert forall|i: int| 0 <= i < list.len() implies (#[trigger] losses[i] <==> side_of(
        value(list[i].pnl),
    ) == -1) by {
        assert(loss_is(list[i], losses[i]));
        let zero = choose|zero: N| ratio_is(0, 1, zero) && exceeds_is(zero, list[i].pnl, losses[i]);
        lemma_whole(value, 0, zero);
    }
    lemma_picked(value, list, wins, 1);
    lemma_picked(value, list, losses, -1);
    (wins, losses)
}

/// In an exact format the profit factor times what the losing trades lost is what the winning
/// trades earned. Without a loss it is unbounded where anything was earned, and zero where
/// nothing was.
pub proof fn profit_factor_weighs_gains_against_losses<N: Number>(
    value: spec_fn(N) -> real,
    starting_cash: N,
    list: Seq<Outcome<N>>,
    curve: Seq<EquityPoint<N>>,
    figures: Figures<N>,
)
    requires
        exact(value),
        figures_are(starting_cash, list, curve, figures),
    ensures
        value(figures.profit_factor) * earned_on(value, list, -1) == -earned_on(value, list, 1)
            || count_on(value, list, -1) == 0,
        count_on(value, list, -1) == 0 && count_on(value, list, 1) > 0 ==> unbounded_is(
            figures.profit_factor,
        ),
        count_on(value, list, -1) == 0 && count_on(value, list, 1) == 0 ==> value(
            figures.profit_factor,
        ) == 0 as real,
{
    let (wins, losses) = lemma_figures(value, starting_cash, list, curve, figures);
    lemma_sides(value, list);
    let (gain, loss) = choose|gain: N, loss: N|
        {
            &&& summed(profits(picked(list, wins)), gain)
            &&& summed(profits(picked(list, losses)), loss)
            &&& #[trigger] profit_factor_is(gain, loss, figures.profit_factor)
        };
    let start = choose|start: N|
        empty_sum_is(start) && #[trigger] total_is(start, profits(picked(list, wins)), gain);
    totals_are_sums(value, start, profits(picked(list, wins)), gain);
    let start = choose|start: N|
        empty_sum_is(start) && #[trigger] total_is(start, profits(picked(list, losses)), loss);
    totals_are_sums(value, start, profits(picked(list, losses)), loss);
    let (zero, lost) = choose|zero: N, lost: bool|
        {
            &&& ratio_is(0, 1, zero)
            &&& exceeds_is(zero, loss, lost)
            &&& if lost {
                exists|owed: N|
                    difference_is(zero, loss, owed) && quotient_is(
                        gain,
                        owed,
                        figures.profit_factor,
                    )
            } else {
                exists|gained: bool|
                    exceeds_is(gain, zero, gained) && if gained {
                        unbounded_is(figures.profit_factor)
                    } else {
                        figures.profit_factor == zero
                    }
            }
        };
    lemma_whole(value, 0, zero);
    if lost {
        let owed = choose|owed: N|
            difference_is(zero, loss, owed) && quotient_is(gain, owed, figures.profit_factor);
        lemma_quotient(value, gain, owed, figures.profit_factor);
        let (f, l, g) = (value(figures.profit_factor), value(loss), value(gain));
        assert(f * l == -g) by (nonlinear_arith)
            requires
                f * (0 as real - l) == g,
        ;
    }
}

/// In an exact format a run with a losing trade has a profit factor above one if and only if
/// its trades earned money together.
pub proof fn profit_factor_tells_a_gain<N: Number>(
    value: spec_fn(N) -> real,
    starting_cash: N,
    list: Seq<Outcome<N>>,
    curve: Seq<EquityPoint<N>>,
    figures: Figures<N>,
)
    requires
        exact(value),
        figures_are(starting_cash, list, curve, figures),
        exists|i: int| 0 <= i < list.len() && value((#[trigger] list[i]).pnl) < 0 as real,
    ensures
        value(figures.profit_factor) > 1 as real <==> real_sum(reals(value, profits(list)))
            > 0 as real,
{
    profit_factor_weighs_gains_against_losses(value, starting_cash, list, curve, figures);
    lemma_sides(value, list);
    lemma_split(value, list);
    let i = choose|i: int| 0 <= i < list.len() && value((#[trigger] list[i]).pnl) < 0 as real;
    lemma_counted(value, list, i);
    let (f, l, g) = (
        value(figures.profit_factor),
        earned_on(value, list, -1),
        earned_on(value, list, 1),
    );
    assert(f > 1 as real <==> g + l > 0 as real) by (nonlinear_arith)
        requires
            f * l == -g,
            l < 0 as real,
    ;
}

proof fn lemma_split<N: Number>(value: spec_fn(N) -> real, list: Seq<Outcome<N>>)
    ensures
        real_sum(reals(value, profits(list))) == earned_on(value, list, 1) + earned_on(
            value,
            list,
            -1,
        ),
    decreases list.len(),
{
    if list.len() > 0 {
        lemma_split(value, list.drop_last());
        assert(reals(value, profits(list)).drop_last() =~= reals(
            value,
            profits(list.drop_last()),
        ));
    }
}

proof fn lemma_counted<N: Number>(value: spec_fn(N) -> real, list: Seq<Outcome<N>>, i: int)
    requires
        0 <= i < list.len(),
    ensures
        count_on(value, list, side_of(value(list[i].pnl))) > 0,
    decreases list.len(),
{
    if i < list.len() - 1 {
        lemma_counted(value, list.drop_last(), i);
    }
}

/// In an exact format the win rate times the number of trades is the number of those that
/// earned money, and the average returns are the mean returns on cost of those that earned
/// and of those that lost; each is zero where there are none.
pub proof fn averages_are_over_their_own_trades<N: Number>(
    value: spec_fn(N) -> real,
    starting_cash: N,
    list: Seq<Outcome<N>>,
    curve: Seq<EquityPoint<N>>,
    figures: Figures<N>,
)
    requires
        exact(value),
        figures_are(starting_cash, list, curve, figures),
        list.len() <= u64::MAX,
    ensures
        value(figures.win_rate) * (list.len() as int as real) == count_on(
            value,
            list,
            1,
        ) as int as real,
        list.len() == 0 ==> value(figures.win_rate) == 0 as real,
        value(figures.avg_win_return) * (count_on(value, list, 1) as int as real) == returns_on(
            value,
            list,
            1,
        ),
        count_on(value, list, 1) == 0 ==> value(figures.avg_win_return) == 0 as real,
        value(figures.avg_loss_return) * (count_on(value, list, -1) as int as real) == returns_on(
            value,
            list,
            -1,
        ),
        count_on(value, list, -1) == 0 ==> value(figures.avg_loss_return) == 0 as real,
{
    let (wins, losses) = lemma_figures(value, starting_cash, list, curve, figures);
    lemma_mean(value, returns_on_cost(picked(list, wins)), figures.avg_win_return);
    lemma_mean(value, returns_on_cost(picked(list, losses)), figures.avg_loss_return);
    if list.len() == 0 {
        lemma_whole(value, 0, figures.win_rate);
    } else {
        assert(ratio_is(
            picked(list, wins).len() as u64,
            list.len() as u64,
            figures.win_rate,
        ));
    }
}

/// In an exact format the cumulative return on the opening balance is what the run gained,
/// the annualized return is that of a year of 252 trading days at the run's daily pace, and
/// the final equity is the last point of the curve.
pub proof fn returns_are_on_the_opening_balance<N: Number>(
    value: spec_fn(N) -> real,
    starting_cash: N,
    list: Seq<Outcome<N>>,
    curve: Seq<EquityPoint<N>>,
    figures: Figures<N>,
)
    requires
        exact(value),
        figures_are(starting_cash, list, curve, figures),
        curve.len() <= u64::MAX,
        value(starting_cash) != 0 as real,
    ensures
        curve.len() > 0 ==> figures.final_equity == curve[curve.len() - 1].equity,
        curve.len() == 0 ==> figures.final_equity == starting_cash,
        value(starting_cash) * (1 as real + value(figures.cumulative_return)) == value(
            figures.final_equity,
        ),
        value(figures.annualized_return) * (curve.len() as int as real) == value(
            figures.cumulative_return,
        ) * (if curve.len() == 0 {
            0 as real
        } else {
            252 as real
        }),
        curve.len() == 0 ==> value(figures.annualized_return) == 0 as real,
{
    let gained = choose|gained: N|
        difference_is(figures.final_equity, starting_cash, gained) && quotient_is(
            gained,
            starting_cash,
            figures.cumulative_return,
        );
    lemma_quotient(value, gained, starting_cash, figures.cumulative_return);
    let (s, c, f) = (
        value(starting_cash),
        value(figures.cumulative_return),
        value(figures.final_equity),
    );
    assert(s * (1 as real + c) == f) by (nonlinear_arith)
        requires
            c * s == f - s,
    ;
    if curve.len() == 0 {
        lemma_whole(value, 0, figures.annualized_return);
        let a = value(figures.annualized_return);
        assert(c * (0 as real) == 0 as real) by (nonlinear_arith);
    } else {
        let (count, daily, year) = choose|count: N, daily: N, year: N|
            {
                &&& ratio_is(curve.len() as u64, 1, count)
                &&& quotient_is(figures.cumulative_return, count, daily)
                &&& ratio_is(ANNUAL_TRADING_DAYS, 1, year)
                &&& product_is(daily, year, figures.annualized_return)
            };
        lemma_whole(value, curve.len() as u64, count);
        lemma_whole(value, ANNUAL_TRADING_DAYS, year);
        lemma_quotient(value, figures.cumulative_return, count, daily);
        let (a, d, n) = (
            value(figures.annualized_return),
            value(daily),
            curve.len() as int as real,
        );
        assert(a * n == c * (252 as real)) by (nonlinear_arith)
            requires
                a == d * (252 as real),
                d * n == c,
        ;
    }
}

/// The relative move from each point of the curve to the next.
pub open spec fn moves<N>(value: spec_fn(N) -> real, curve: Seq<EquityPoint<N>>) -> Seq<real> {
    Seq::new(
        (curve.len() - 1) as nat,
        |i: int| value(curve[i + 1].equity) / value(curve[i].equity) - 1 as real,
    )
}

proof fn lemma_squares<N: Number>(
    value: spec_fn(N) -> real,
    values: Seq<N>,
    average: N,
    squares: Seq<N>,
)
    requires
        exact(value),
        squares.len() == values.len(),
        forall|i: int|
            0 <= i < values.len() ==> squared_distance_is(
                values[i],
                average,
                #[trigger] squares[i],
            ),
    ensures
        real_sum(reals(value, squares)) == square_sum(reals(value, values), value(average)),
    decreases values.len(),
{
    if values.len() > 0 {
        let last = values.len() - 1;
        let (shorter, fewer) = (values.drop_last(), squares.drop_last());
        assert forall|i: int| 0 <= i < shorter.len() implies squared_distance_is(
            shorter[i],
            average,
            #[trigger] fewer[i],
        ) by {
            assert(squared_distance_is(values[i], average, squares[i]));
        }
        lemma_squares(value, shorter, average, fewer);
        assert(squared_distance_is(values[last], average, squares[last]));
        assert(reals(value, squares).drop_last() =~= reals(value, fewer));
        assert(reals(value, values).drop_last() =~= reals(value, shorter));
    }
}

proof fn lemma_squares_stand(values: Seq<real>, center: real)
    ensures
        square_sum(values, center) >= 0 as real,
    decreases values.len(),
{
    if values.len() > 0 {
        lemma_squares_stand(values.drop_last(), center);
        let d = values.last() - center;
        assert(d * d >= 0 as real) by (nonlinear_arith);
    }
}

/// In an exact format with square roots the Sharpe ratio of a curve is the mean daily move
/// over its standard deviation, scaled by the root of 252 days: its square times the variance
/// is 252 times the square of the mean, and it has the sign of the mean. It is zero for a
/// curve without moves or with equal ones.
pub proof fn sharpe_weighs_the_mean_move_against_its_spread<N: Number>(
    value: spec_fn(N) -> real,
    curve: Seq<EquityPoint<N>>,
    sharpe: N,
)
    requires
        exact(value),
        has_roots(value),
        sharpe_is(curve, sharpe),
        curve.len() <= u64::MAX,
        forall|i: int| 0 <= i < curve.len() ==> value((#[trigger] curve[i]).equity) != 0 as real,
    ensures
        curve.len() < 2 ==> value(sharpe) == 0 as real,
        curve.len() >= 2 ==> ({
            let mean = real_mean(moves(value, curve));
            let variance = square_sum(moves(value, curve), mean) / ((curve.len()
                - 1) as int as real);
            &&& variance == 0 as real ==> value(sharpe) == 0 as real
            &&& value(sharpe) * value(sharpe) * variance == if variance == 0 as real {
                0 as real
            } else {
                252 as real * mean * mean
            }
            &&& variance > 0 as real ==> side_of(value(sharpe)) == side_of(mean)
        }),
{
    if curve.len() < 2 {
        lemma_whole(value, 0, sharpe);
    } else {
        let (steps, average, deviation) = choose|steps: Seq<N>, average: N, deviation: N|
            {
                &&& steps.len() == curve.len() - 1
                &&& forall|i: int|
                    0 <= i < steps.len() ==> daily_return_is(
                        curve[i],
                        curve[i + 1],
                        #[trigger] steps[i],
                    )
                &&& #[trigger] mean_is(steps, average)
                &&& #[trigger] deviation_is(steps, average, deviation)
                &&& sharpe_ratio_is(average, deviation, sharpe)
            };
        assert forall|i: int| 0 <= i < steps.len() implies #[trigger] reals(value, steps)[i]
            == moves(value, curve)[i] by {
            assert(daily_return_is(curve[i], curve[i + 1], steps[i]));
            let (growth, one) = choose|growth: N, one: N|
                {
                    &&& quotient_is(curve[i + 1].equity, curve[i].equity, growth)
                    &&& ratio_is(1, 1, one)
                    &&& difference_is(growth, one, steps[i])
                };
            lemma_whole(value, 1, one);
            lemma_quotient(value, curve[i + 1].equity, curve[i].equity, growth);
        }
        assert(reals(value, steps) =~= moves(value, curve));
        lemma_mean(value, steps, average);
        let (squares, spread) = choose|squares: Seq<N>, spread: N|
            {
                &&& squares.len() == steps.len()
                &&& forall|i: int|
                    0 <= i < steps.len() ==> squared_distance_is(
                        steps[i],
                        average,
                        #[trigger] squares[i],
                    )
                &&& #[trigger] mean_is(squares, spread)
                &&& sqrt_is(spread, deviation)
            };
        lemma_squares(value, steps, average, squares);
        lemma_mean(value, squares, spread);
        lemma_squares_stand(moves(value, curve), value(average));
        let (m, v, d, s, n) = (
            value(average),
            value(spread),
            value(deviation),
            value(sharpe),
            (curve.len() - 1) as int as real,
        );
        let q = square_sum(moves(value, curve), m);
        assert(v == q / n);
        assert(v >= 0 as real) by (nonlinear_arith)
            requires
                v * n == q,
                q >= 0 as real,
                n > 0 as real,
        ;
        assert(d >= 0 as real && d * d == v);
        let (zero, at_least, at_most) = choose|zero: N, at_least: bool, at_most: bool|
            {
                &&& ratio_is(0, 1, zero)
                &&& reaches_is(deviation, zero, at_least)
                &&& reaches_is(zero, deviation, at_most)
                &&& if at_least && at_most {
                    sharpe == zero
                } else {
                    exists|unit: N, year: N, root: N|
                        {
                            &&& quotient_is(average, deviation, unit)
                            &&& ratio_is(ANNUAL_TRADING_DAYS, 1, year)
                            &&& sqrt_is(year, root)
                            &&& product_is(unit, root, sharpe)
                        }
                }
            };
        lemma_whole(value, 0, zero);
        if at_least && at_most {
            assert(d * d == 0 as real) by (nonlinear_arith)
                requires
                    d == 0 as real,
            ;
            assert(s * s * v == 0 as real) by (nonlinear_arith)
                requires
                    s == 0 as real,
            ;
        } else {
            let (unit, year, root) = choose|unit: N, year: N, root: N|
                {
                    &&& quotient_is(average, deviation, unit)
                    &&& ratio_is(ANNUAL_TRADING_DAYS, 1, year)
                    &&& sqrt_is(year, root)
                    &&& product_is(unit, root, sharpe)
                };
            lemma_whole(value, ANNUAL_TRADING_DAYS, year);
            lemma_quotient(value, average, deviation, unit);
            let (u, r) = (value(unit), value(root));
            assert(v > 0 as real) by (nonlinear_arith)
                requires
                    d > 0 as real,
                    d * d == v,
            ;
            assert(r > 0 as real) by (nonlinear_arith)
                requires
                    r >= 0 as real,
                    r * r == 252 as real,
            ;
            assert(s * s * v == 252 as real * m * m) by (nonlinear_arith)
                requires
                    s == u * r,
                    u * d == m,
                    d * d == v,
                    r * r == 252 as real,
            {
                assert(s * s * v == (u * d) * (u * d) * (r * r));
            }
            assert((s > 0 as real <==> m > 0 as real) && (s < 0 as real <==> m < 0 as real))
                by (nonlinear_arith)
                requires
                    s == u * r,
                    u * d == m,
                    r > 0 as real,
                    d > 0 as real,
            ;
        }
    }
}

/// What the trades on `side` of zero earned together.
pub open spec fn traded_on<N>(value: spec_fn(N) -> real, trades: Seq<Trade<N>>, side: int) -> real
    decreases trades.len(),
{
    if trades.len() == 0 {
        0 as real
    } else {
        traded_on(value, trades.drop_last(), side) + if side_of(value(trades.last().pnl)) == side {
            value(trades.last().pnl)
        } else {
            0 as real
        }
    }
}

/// How many trades ended on `side` of zero.
pub open spec fn trades_on<N>(value: spec_fn(N) -> real, trades: Seq<Trade<N>>, side: int) -> nat
    decreases trades.len(),
{
    if trades.len() == 0 {
        0
    } else {
        trades_on(value, trades.drop_last(), side) + if side_of(value(trades.last().pnl)) == side {
            1nat
        } else {
            0nat
        }
    }
}

/// The returns on cost of the trades on `side` of zero, added up.
pub open spec fn traded_returns_on<N>(
    value: spec_fn(N) -> real,
    trades: Seq<Trade<N>>,
    side: int,
) -> real
    decreases trades.len(),
{
    if trades.len() == 0 {
        0 as real
    } else {
        traded_returns_on(value, trades.drop_last(), side) + if side_of(value(trades.last().pnl))
            == side {
            value(trades.last().return_pct)
        } else {
            0 as real
        }
    }
}

proof fn lemma_trades<N: Number>(value: spec_fn(N) -> real, trades: Seq<Trade<N>>, side: int)
    ensures
        outcomes(trades).len() == trades.len(),
        earned_on(value, outcomes(trades), side) == traded_on(value, trades, side),
        count_on(value, outcomes(trades), side) == trades_on(value, trades, side),
        returns_on(value, outcomes(trades), side) == traded_returns_on(value, trades, side),
        real_sum(reals(value, profits(outcomes(trades)))) == earned(value, trades),
    decreases trades.len(),
{
    if trades.len() > 0 {
        let (shorter, list) = (trades.drop_last(), outcomes(trades));
        lemma_trades(value, shorter, side);
        assert(list.drop_last() =~= outcomes(shorter));
        assert(reals(value, profits(list)).drop_last() =~= reals(value, profits(outcomes(shorter))));
    }
}

/// In an exact format the figures of a report are those of its trades and its curve: the win
/// rate counts the trades that earned money, the profit factor weighs what they earned
/// against what the losing ones lost, the averages are over the trades of either kind, and
/// with a losing trade the factor exceeds one if and only if the trades earned money together.
pub proof fn report_judges_its_own_trades<N: Number>(
    value: spec_fn(N) -> real,
    starting_cash: N,
    trades: Seq<Trade<N>>,
    events: Seq<TradeEvent<N>>,
    curve: Seq<EquityPoint<N>>,
    report: BacktestReport<N>,
)
    requires
        exact(value),
        report_is(starting_cash, trades, events, curve, report),
        trades.len() <= u64::MAX,
    ensures
        value(report.win_rate) * (trades.len() as int as real) == trades_on(
            value,
            trades,
            1,
        ) as int as real,
        trades_on(value, trades, -1) > 0 ==> value(report.profit_factor) * traded_on(
            value,
            trades,
            -1,
        ) == -traded_on(value, trades, 1),
        trades_on(value, trades, -1) > 0 ==> (value(report.profit_factor) > 1 as real <==> earned(
            value,
            trades,
        ) > 0 as real),
        trades_on(value, trades, -1) == 0 && trades_on(value, trades, 1) > 0 ==> unbounded_is(
            report.profit_factor,
        ),
        value(report.avg_win_return) * (trades_on(value, trades, 1) as int as real)
            == traded_returns_on(value, trades, 1),
        value(report.avg_loss_return) * (trades_on(value, trades, -1) as int as real)
            == traded_returns_on(value, trades, -1),
{
    let list = outcomes(trades);
    let figures = Figures {
        final_equity: report.final_equity,
        cumulative_return: report.cumulative_return,
        annualized_return: report.annualized_return,
        win_rate: report.win_rate,
        profit_factor: report.profit_factor,
        avg_win_return: report.avg_win_return,
        avg_loss_return: report.avg_loss_return,
    };
    lemma_trades(value, trades, 1);
    lemma_trades(value, trades, -1);
    profit_factor_weighs_gains_against_losses(value, starting_cash, list, curve, figures);
    averages_are_over_their_own_trades(value, starting_cash, list, curve, figures);
    if trades_on(value, trades, -1) > 0 {
        lemma_found(value, list, -1);
        profit_factor_tells_a_gain(value, starting_cash, list, curve, figures);
    }
}

proof fn lemma_found<N: Number>(value: spec_fn(N) -> real, list: Seq<Outcome<N>>, side: int)
    requires
        count_on(value, list, side) > 0,
    ensures
        exists|i: int| 0 <= i < list.len() && side_of(value((#[trigger] list[i]).pnl)) == side,
    decreases list.len(),
{
    let last = list.len() - 1;
    if side_of(value(list[last].pnl)) != side {
        lemma_found(value, list.drop_last(), side);
        let i = choose|i: int|
            0 <= i < last && side_of(value((#[trigger] list.drop_last()[i]).pnl)) == side;
        assert(side_of(value(list[i].pnl)) == side);
    }
}

/// In an exact format the report of a run on signals alone is worth what its trades earned and
/// judges exactly them: its count, win rate, profit factor, and averages are theirs, and so is
/// the money made on the opening balance.
pub proof fn signal_report_judges_its_own_trades<N: Number>(
    value: spec_fn(N) -> real,
    starting_cash: N,
    trades: Seq<Trade<N>>,
    curve: Seq<EquityPoint<N>>,
    report: crate::portfolio::BacktestReport<N>,
)
    requires
        exact(value),
        crate::portfolio::report_is(starting_cash, trades, curve, report),
        trades.len() <= u64::MAX,
    ensures
        report.trade_count == trades.len(),
        report.trading_days == curve.len(),
        report.starting_cash == starting_cash,
        curve.len() > 0 ==> report.final_equity == curve.last().equity,
        value(report.win_rate) * (trades.len() as int as real) == trades_on(
            value,
            trades,
            1,
        ) as int as real,
        trades_on(value, trades, -1) > 0 ==> value(report.profit_factor) * traded_on(
            value,
            trades,
            -1,
        ) == -traded_on(value, trades, 1),
        trades_on(value, trades, -1) == 0 && trades_on(value, trades, 1) > 0 ==> unbounded_is(
            report.profit_factor,
        ),
        value(report.avg_win_return) * (trades_on(value, trades, 1) as int as real)
            == traded_returns_on(value, trades, 1),
        value(report.avg_loss_return) * (trades_on(value, trades, -1) as int as real)
            == traded_returns_on(value, trades, -1),
        value(starting_cash) != 0 as real ==> value(report.cumulative_return) * value(starting_cash)
            == value(report.final_equity) - value(starting_cash),
{
    let list = outcomes(trades);
    let figures = Figures {
        final_equity: report.final_equity,
        cumulative_return: report.cumulative_return,
        annualized_return: report.annualized_return,
        win_rate: report.win_rate,
        profit_factor: report.profit_factor,
        avg_win_return: report.avg_win_return,
        avg_loss_return: report.avg_loss_return,
    };
    lemma_trades(value, trades, 1);
    lemma_trades(value, trades, -1);
    profit_factor_weighs_gains_against_losses(value, starting_cash, list, curve, figures);
    averages_are_over_their_own_trades(value, starting_cash, list, curve, figures);
}

} // verus!
