//! The portfolio simulation, its prices, metrics, and texts.
use trainer::command::backtest::{build_days, index_signals};
use trainer::number::Number;
use trainer::portfolio;
use trainer::portfolio::engine;
use trainer::portfolio::exits::exit_decision;
use trainer::portfolio::metrics::{annualized_sharpe, mean, ratio};
use trainer::portfolio::orders::{affordable_shares, candidates, holdings_value};
use trainer::portfolio::pricing::{
    buy_price, commission, round_trip_cost, sell_price, tick_ceil, tick_floor, tick_size,
};
use trainer::portfolio::ranking::{sort_placed, sort_ranked, Placed, Ranked};
use trainer::portfolio::report::{exit_tally, format_ntd, summary, summary_row, RenderContext};
use trainer::portfolio::types::{
    Action, BacktestConfig, BacktestReport, DayBar, EquityPoint, ExitReason, Fill, Holding, Position,
    Side, TickerBar, Trade, TradingDay,
};
use trainer::report::{print, Prediction};
use trainer::store::{InferenceWindow, TickerQuotes};

/// Double-precision arithmetic for the generic code under test.
#[derive(Clone, Copy, Debug, PartialEq)]
struct F64(f64);

impl Number for F64 {
    fn from_ratio(numerator: u64, denominator: u64) -> Self {
        F64(numerator as f64 / denominator as f64)
    }

    fn empty_sum() -> Self {
        F64(std::iter::empty::<f64>().sum())
    }

    fn unbounded() -> Self {
        F64(f64::INFINITY)
    }

    fn plus(self, other: Self) -> Self {
        F64(self.0 + other.0)
    }

    fn minus(self, other: Self) -> Self {
        F64(self.0 - other.0)
    }

    fn times(self, other: Self) -> Self {
        F64(self.0 * other.0)
    }

    fn over(self, other: Self) -> Self {
        F64(self.0 / other.0)
    }

    fn larger(self, other: Self) -> Self {
        F64(self.0.max(other.0))
    }

    fn higher(self, other: Self) -> Self {
        if self.0.is_nan() || self.0 > other.0 {
            self
        } else {
            other
        }
    }

    fn smaller(self, other: Self) -> Self {
        F64(self.0.min(other.0))
    }

    fn floor(self) -> Self {
        F64(self.0.floor())
    }

    fn ceil(self) -> Self {
        F64(self.0.ceil())
    }

    fn sqrt(self) -> Self {
        F64(self.0.sqrt())
    }

    fn log_one_plus(self) -> Self {
        F64(self.0.ln_1p())
    }

    fn whole(self) -> u64 {
        self.0 as u64
    }

    fn exceeds(self, other: Self) -> bool {
        self.0 > other.0
    }

    fn reaches(self, other: Self) -> bool {
        self.0 >= other.0
    }

    fn is_finite(self) -> bool {
        self.0.is_finite()
    }

    fn rank(self) -> i64 {
        let bits = self.0.to_bits() as i64;
        bits ^ (((bits >> 63) as u64) >> 1) as i64
    }

    fn text(self, decimals: usize, signed: bool) -> String {
        if signed {
            format!("{:+.*}", decimals, self.0)
        } else {
            format!("{:.*}", decimals, self.0)
        }
    }
}

/// Day number of a day in January 2026.
fn date(day: i32) -> i32 {
    739_616 + day
}

fn bar(score: f32, action: Action, low: f32, high: f32, close: f32) -> DayBar<F64> {
    DayBar {
        score: F64(f64::from(score)),
        action,
        open: F64(f64::from(low)),
        low: F64(f64::from(low)),
        high: F64(f64::from(high)),
        close: F64(f64::from(close)),
    }
}

fn day(number: i32, bars: Vec<(&str, DayBar<F64>)>) -> TradingDay<F64> {
    TradingDay {
        date: date(number),
        bars: bars
            .into_iter()
            .map(|(ticker, bar)| TickerBar { ticker: ticker.to_string(), bar })
            .collect(),
    }
}

fn simple_config(starting_cash: f64, max_holdings: usize) -> portfolio::BacktestConfig<F64> {
    portfolio::BacktestConfig {
        threshold: F64(0.0),
        fill: Fill::LowHigh,
        max_holdings,
        starting_cash: F64(starting_cash),
    }
}

fn config(starting_cash: f64, max_holdings: usize) -> BacktestConfig<F64> {
    BacktestConfig {
        threshold: F64(0.0),
        fill: Fill::LowHigh,
        max_holdings,
        starting_cash: F64(starting_cash),
        // Barriers wide enough never to fire, so these tests exercise the model-Sell and
        // final-day exits only.
        take_profit: F64(100.0),
        stop_loss: F64(0.99),
        max_hold_days: usize::MAX,
    }
}

fn check_tick_rounding() {
    let floor = |price: f64| tick_floor(F64(price)).0;
    let ceil = |price: f64| tick_ceil(F64(price)).0;
    assert!((floor(8.256) - 8.25).abs() < 1e-9);
    assert!((ceil(3.765) - 3.77).abs() < 1e-9);
    assert!((floor(34.271) - 34.25).abs() < 1e-9);
    assert!((ceil(66.256) - 66.30).abs() < 1e-9);
    assert!((floor(499.831) - 499.50).abs() < 1e-9);
    assert!((ceil(499.831) - 500.00).abs() < 1e-9);
    assert!((floor(1456.256) - 1455.0).abs() < 1e-9);
    assert!((ceil(1456.256) - 1460.0).abs() < 1e-9);
}

#[test]
fn portfolio_tick_rounding_matches_platform_examples() {
    check_tick_rounding();
}

#[test]
fn pricing_tick_rounding_matches_platform_examples() {
    check_tick_rounding();
}

fn winning_days() -> Vec<TradingDay<F64>> {
    // Buy A on day 1 at low 10, hold through day 2, liquidate day 3 at high 20.
    vec![
        day(1, vec![("A", bar(0.5, Action::Buy, 10.0, 12.0, 11.0))]),
        day(2, vec![("A", bar(0.1, Action::Hold, 13.0, 16.0, 15.0))]),
        day(3, vec![("A", bar(0.0, Action::Hold, 18.0, 20.0, 19.0))]),
    ]
}

fn winner_and_loser_days() -> Vec<TradingDay<F64>> {
    // Two slots, two buys on day 1, both liquidated day 2: A rises, B falls.
    vec![
        day(
            1,
            vec![
                ("A", bar(0.6, Action::Buy, 10.0, 11.0, 11.0)),
                ("B", bar(0.5, Action::Buy, 100.0, 101.0, 100.0)),
            ],
        ),
        day(
            2,
            vec![
                ("A", bar(0.0, Action::Sell, 19.0, 20.0, 20.0)),
                ("B", bar(0.0, Action::Sell, 89.0, 90.0, 90.0)),
            ],
        ),
    ]
}

#[test]
fn portfolio_single_winning_trade_is_hand_checked() {
    let report = portfolio::run(&winning_days(), &simple_config(1_000_000.0, 2));

    // Buy 50,000 shares at 10 (cost 500,712.5 with commission), sell at 20 for proceeds
    // 995,575 net of commission and tax, so final cash is 1,494,862.5.
    assert_eq!(report.trade_count, 1);
    assert_eq!(report.trading_days, 3);
    assert!((report.final_equity.0 - 1_494_862.5).abs() < 1e-2);
    assert!((report.cumulative_return.0 - 0.494_862_5).abs() < 1e-6);
    assert!((report.win_rate.0 - 1.0).abs() < 1e-9);
    assert!(report.profit_factor.0.is_infinite());
    // Net return on cost of the lone winner.
    assert!((report.avg_win_return.0 - 0.988_32).abs() < 1e-4);
}

#[test]
fn portfolio_winner_and_loser_drive_win_rate_and_profit_factor() {
    let report = portfolio::run(&winner_and_loser_days(), &simple_config(2_000_000.0, 2));

    assert_eq!(report.trade_count, 2);
    assert!((report.win_rate.0 - 0.5).abs() < 1e-9);
    // A nets +989,725, B nets -94,866.75, so final equity is 2,894,858.25.
    assert!((report.final_equity.0 - 2_894_858.25).abs() < 1e-2);
    assert!((report.profit_factor.0 - 10.4327).abs() < 1e-3);
    assert!((report.avg_loss_return.0 + 0.105_258).abs() < 1e-5);
    assert!(report.cumulative_return.0 > 0.0);
}

#[test]
fn portfolio_weak_signals_stay_in_cash() {
    // Only candidate is below the threshold, so nothing is bought.
    let days = vec![day(1, vec![("A", bar(0.05, Action::Buy, 10.0, 12.0, 11.0))])];
    let mut cfg = simple_config(1_000_000.0, 10);
    cfg.threshold = F64(f64::from(0.2f32));

    let report = portfolio::run(&days, &cfg);

    assert_eq!(report.trade_count, 0);
    assert!((report.final_equity.0 - 1_000_000.0).abs() < 1e-9);
}

#[test]
fn engine_single_winning_trade_is_hand_checked() {
    let report = engine::run(&winning_days(), &config(1_000_000.0, 2));

    assert_eq!(report.trade_count, 1);
    assert_eq!(report.trading_days, 3);
    assert!((report.final_equity.0 - 1_494_862.5).abs() < 1e-2);
    assert!((report.cumulative_return.0 - 0.494_862_5).abs() < 1e-6);
    assert!((report.win_rate.0 - 1.0).abs() < 1e-9);
    assert!(report.profit_factor.0.is_infinite());
    assert!((report.avg_win_return.0 - 0.988_32).abs() < 1e-4);
}

#[test]
fn engine_winner_and_loser_drive_win_rate_and_profit_factor() {
    let report = engine::run(&winner_and_loser_days(), &config(2_000_000.0, 2));

    assert_eq!(report.trade_count, 2);
    assert!((report.win_rate.0 - 0.5).abs() < 1e-9);
    assert!((report.final_equity.0 - 2_894_858.25).abs() < 1e-2);
    assert!((report.profit_factor.0 - 10.4327).abs() < 1e-3);
    assert!((report.avg_loss_return.0 + 0.105_258).abs() < 1e-5);
    assert!(report.cumulative_return.0 > 0.0);
}

#[test]
fn engine_weak_signals_stay_in_cash() {
    let days = vec![day(1, vec![("A", bar(0.05, Action::Buy, 10.0, 12.0, 11.0))])];
    let mut cfg = config(1_000_000.0, 10);
    cfg.threshold = F64(f64::from(0.2f32));

    let report = engine::run(&days, &cfg);

    assert_eq!(report.trade_count, 0);
    assert!((report.final_equity.0 - 1_000_000.0).abs() < 1e-9);
}

#[test]
fn the_books_of_a_run_balance() {
    let runs = [
        engine::run(&winning_days(), &config(1_000_000.0, 2)),
        engine::run(&winner_and_loser_days(), &config(2_000_000.0, 2)),
        engine::run(&rotation_days(0.2, 0.9), &config(1_000_000.0, 1)),
        engine::run(&[], &config(1_000_000.0, 1)),
    ];
    for report in &runs {
        let earned: f64 = report.trades.iter().map(|trade| trade.pnl.0).sum();
        assert!((report.final_equity.0 - report.starting_cash.0 - earned).abs() < 1e-6);
    }
    assert!(runs[2].trades.len() > 1);
    assert_eq!(runs[3].final_equity, F64(1_000_000.0));
}

fn rotation_days(held: f32, challenger: f32) -> Vec<TradingDay<F64>> {
    vec![
        day(1, vec![("A", bar(0.5, Action::Buy, 10.0, 10.0, 10.0))]),
        day(
            2,
            vec![
                ("A", bar(held, Action::Hold, 11.0, 12.0, 11.0)),
                ("B", bar(challenger, Action::Buy, 50.0, 51.0, 50.0)),
            ],
        ),
        day(3, vec![]),
    ]
}

#[test]
fn outranked_holding_rotates_out() {
    // One slot: buy A day 1, B outranks A day 2, so A rotates out for B.
    let report = engine::run(&rotation_days(0.2, 0.9), &config(1_000_000.0, 1));

    let rotated = report
        .trades
        .iter()
        .find(|trade| trade.exit_reason.as_str() == "rotate")
        .expect("A should rotate out");
    assert_eq!(rotated.ticker, "A");
    assert!((rotated.exit_price.0 - 12.0).abs() < 1e-9);
}

#[test]
fn marginal_challenger_does_not_rotate() {
    // Challenger B (0.505) beats A (0.500) by less than the round-trip cost, so the full
    // book holds A rather than churning into B for no net gain.
    let report = engine::run(&rotation_days(0.500, 0.505), &config(1_000_000.0, 1));

    assert!(report.trades.iter().all(|t| t.exit_reason.as_str() != "rotate"));
}

fn barrier_config(take_profit: f64, stop_loss: f64, max_hold_days: usize) -> BacktestConfig<F64> {
    BacktestConfig {
        threshold: F64(0.0),
        fill: Fill::LowHigh,
        max_holdings: 1,
        starting_cash: F64(1_000_000.0),
        take_profit: F64(take_profit),
        stop_loss: F64(stop_loss),
        max_hold_days,
    }
}

/// One ticker bought day 1 at low 10, a trigger bar, and a filler day so the trigger is not
/// the forced final-day exit.
fn run_exit_scenario(
    trigger: DayBar<F64>,
    config: &BacktestConfig<F64>,
) -> BacktestReport<F64> {
    let days = vec![
        day(1, vec![("A", bar(0.5, Action::Buy, 10.0, 10.0, 10.0))]),
        day(2, vec![("A", trigger)]),
        day(3, vec![]),
    ];
    engine::run(&days, config)
}

#[test]
fn take_profit_exit_fills_at_the_barrier() {
    // High 12 crosses the +10% barrier (11); sell at the barrier tick.
    let report = run_exit_scenario(
        bar(0.0, Action::Hold, 10.0, 12.0, 11.0),
        &barrier_config(0.1, 0.5, 100),
    );

    assert_eq!(report.trade_count, 1);
    assert_eq!(report.trades[0].exit_reason.as_str(), "take_profit");
    assert!((report.trades[0].exit_price.0 - 11.0).abs() < 1e-9);
    assert!(report.trades[0].pnl.0 > 0.0);
}

#[test]
fn stop_loss_exit_fills_at_the_barrier() {
    // Low 8 crosses the -10% barrier (9); sell at the barrier tick.
    let report = run_exit_scenario(
        bar(0.0, Action::Hold, 8.0, 10.0, 9.0),
        &barrier_config(0.5, 0.1, 100),
    );

    assert_eq!(report.trade_count, 1);
    assert_eq!(report.trades[0].exit_reason.as_str(), "stop_loss");
    assert!((report.trades[0].exit_price.0 - 9.0).abs() < 1e-9);
    assert!(report.trades[0].pnl.0 < 0.0);
}

#[test]
fn time_exit_sells_at_the_horizon_close() {
    // Neither barrier touched, but the one-day hold limit is reached on day 2.
    let report = run_exit_scenario(
        bar(0.0, Action::Hold, 10.0, 11.0, 10.5),
        &barrier_config(0.5, 0.5, 1),
    );

    assert_eq!(report.trade_count, 1);
    assert_eq!(report.trades[0].exit_reason.as_str(), "time");
    assert!((report.trades[0].exit_price.0 - 10.5).abs() < 1e-9);
}

#[test]
fn both_barriers_in_one_bar_takes_profit() {
    // Bar touches both the +10% and -10% barriers; the optimistic rule takes profit.
    let report = run_exit_scenario(
        bar(0.0, Action::Hold, 8.0, 12.0, 10.0),
        &barrier_config(0.1, 0.1, 100),
    );

    assert_eq!(report.trade_count, 1);
    assert_eq!(report.trades[0].exit_reason.as_str(), "take_profit");
    assert!((report.trades[0].exit_price.0 - 11.0).abs() < 1e-9);
}

#[test]
fn commission_has_a_floor() {
    assert_eq!(commission(F64(1_000.0)).0, 20.0);
    assert_eq!(commission(F64(1_000_000.0)).0, 1_425.0);
    assert!((round_trip_cost::<F64>().0 - 0.005_85).abs() < 1e-15);
}

#[test]
fn tick_size_follows_the_price_bands() {
    assert_eq!(tick_size(F64(9.99)).0, 0.01);
    assert_eq!(tick_size(F64(10.0)).0, 0.05);
    assert_eq!(tick_size(F64(50.0)).0, 0.1);
    assert_eq!(tick_size(F64(100.0)).0, 0.5);
    assert_eq!(tick_size(F64(500.0)).0, 1.0);
    assert_eq!(tick_size(F64(1_000.0)).0, 5.0);
}

#[test]
fn fills_follow_the_mode() {
    let mut today = bar(0.0, Action::Hold, 10.02, 12.07, 11.0);
    today.open = F64(11.03);
    assert!((buy_price(&today, Fill::LowHigh).0 - 10.05).abs() < 1e-6);
    assert!((sell_price(&today, Fill::LowHigh).0 - 12.05).abs() < 1e-6);
    assert!((buy_price(&today, Fill::Open).0 - 11.05).abs() < 1e-6);
    assert!((sell_price(&today, Fill::Open).0 - 11.0).abs() < 1e-6);
}

#[test]
fn affordable_shares_leave_room_for_the_commission() {
    // Two lots cost 20,000 before the commission of 28.5, so one is dropped.
    assert_eq!(affordable_shares(F64(20_000.0), F64(10.0), F64(20_000.0)).0, 1_000.0);
    assert_eq!(affordable_shares(F64(20_000.0), F64(10.0), F64(20_028.5)).0, 2_000.0);
    assert_eq!(affordable_shares(F64(9_999.0), F64(10.0), F64(20_000.0)).0, 0.0);
    // One lot fits the budget, its commission does not fit the cash.
    assert_eq!(affordable_shares(F64(10_000.0), F64(10.0), F64(10_000.0)).0, 0.0);
    // A budget below zero, or none at all, affords nothing.
    assert_eq!(affordable_shares(F64(-5_000.0), F64(10.0), F64(1_000_000.0)).0, 0.0);
    assert_eq!(affordable_shares(F64(f64::NAN), F64(10.0), F64(1_000_000.0)).0, 0.0);
}

#[test]
fn candidates_are_strongest_first_with_names_breaking_ties() {
    let bars = day(
        1,
        vec![
            ("B", bar(0.5, Action::Buy, 1.0, 1.0, 1.0)),
            ("C", bar(0.9, Action::Buy, 1.0, 1.0, 1.0)),
            ("A", bar(0.5, Action::Buy, 1.0, 1.0, 1.0)),
            ("D", bar(0.1, Action::Buy, 1.0, 1.0, 1.0)),
            ("E", bar(0.8, Action::Buy, 1.0, 1.0, 1.0)),
        ],
    )
    .bars;
    let held = vec![position("E", 1_000.0, 10.0)];

    let list = candidates(&bars, &held, F64(0.1f32 as f64));

    let names: Vec<&str> = list.iter().map(|entry| entry.name.as_str()).collect();
    assert_eq!(names, vec!["C", "A", "B"]);
}

fn position(ticker: &str, shares: f64, mark: f64) -> Position<F64> {
    Position {
        ticker: ticker.to_string(),
        holding: Holding {
            shares: F64(shares),
            cost: F64(shares * mark),
            mark: F64(mark),
            entry_date: date(1),
            entry_price: F64(mark),
            entry_index: 0,
        },
    }
}

#[test]
fn holdings_are_valued_at_the_close_or_the_last_mark() {
    let held = vec![position("A", 1_000.0, 10.0), position("B", 2_000.0, 20.0)];
    let bars = day(1, vec![("A", bar(0.0, Action::Hold, 1.0, 1.0, 12.0))]).bars;
    assert_eq!(holdings_value(&held, &bars).0, 12_000.0 + 40_000.0);
}

#[test]
fn a_holding_without_a_bar_leaves_only_on_the_final_day() {
    let held = position("A", 1_000.0, 10.0).holding;
    let cfg = barrier_config(0.1, 0.1, 1);
    assert_eq!(exit_decision(&held, None, 5, false, &cfg), None);
    assert_eq!(
        exit_decision(&held, None, 5, true, &cfg),
        Some((F64(10.0), ExitReason::Final))
    );
}

#[test]
fn exit_ladder_ends_with_signal_and_final_day() {
    let held = position("A", 1_000.0, 10.0).holding;
    let cfg = barrier_config(0.5, 0.5, 100);
    let hold = bar(0.0, Action::Hold, 10.0, 11.0, 10.5);
    let sell = bar(0.0, Action::Sell, 10.0, 11.0, 10.5);
    assert_eq!(exit_decision(&held, Some(&hold), 5, false, &cfg), None);
    assert_eq!(
        exit_decision(&held, Some(&sell), 5, false, &cfg),
        Some((F64(11.0), ExitReason::Signal))
    );
    assert_eq!(
        exit_decision(&held, Some(&hold), 5, true, &cfg),
        Some((F64(11.0), ExitReason::Final))
    );
}

/// Six tickers over four days under three slots, with barriers that fire and rotation.
fn busy_report() -> BacktestReport<F64> {
    engine::run(&busy_days(4, 7), &busy_config())
}

/// Days of six tickers whose prices and scores move in waves; `turn` sets the waves from the
/// fourth day on.
fn busy_days(count: i32, turn: i32) -> Vec<TradingDay<F64>> {
    let names = ["A", "B", "C", "D", "E", "F"];
    let mut days = Vec::new();
    for number in 1..=count {
        let pace = if number < 4 { 7 } else { turn };
        let bars = names
            .iter()
            .enumerate()
            .map(|(slot, name)| {
                let wave = ((number * pace + slot as i32 * 5) % 11) as f32;
                let price = 20.0 + wave + slot as f32;
                let action = if wave > 8.0 { Action::Sell } else { Action::Buy };
                (*name, bar(wave / 10.0, action, price - 1.0, price + 1.0, price))
            })
            .collect();
        days.push(day(number, bars));
    }
    days
}

fn busy_config() -> BacktestConfig<F64> {
    let mut cfg = config(1_000_000.0, 3);
    cfg.take_profit = F64(0.1);
    cfg.stop_loss = F64(0.1);
    cfg
}

#[test]
fn runs_agree_on_the_days_they_share() {
    // The first three days are the same, the fourth differs, and so does the length.
    let left = engine::run(&busy_days(4, 7), &busy_config());
    let right = engine::run(&busy_days(6, 3), &busy_config());
    let early = |report: &BacktestReport<F64>| -> Vec<(i32, String, f64, f64)> {
        report
            .events
            .iter()
            .filter(|event| event.date <= date(3))
            .map(|e| (e.date, e.ticker.clone(), e.shares.0, e.cash_after.0))
            .collect()
    };
    assert!(!early(&left).is_empty());
    assert_eq!(early(&left), early(&right));
    for at in 0..3 {
        assert_eq!(left.equity_curve[at].equity, right.equity_curve[at].equity);
    }
    assert_ne!(left.equity_curve[3].equity, right.equity_curve[3].equity);
}

#[test]
fn every_buy_is_sold_again() {
    let report = busy_report();
    let sells = report.events.iter().filter(|e| e.side == Side::Sell).count();
    assert!(report.trade_count > 0);
    assert_eq!(sells, report.trades.len());
    assert_eq!(report.events.len(), 2 * report.trades.len());
    assert!(report.events.iter().all(|e| (e.side == Side::Sell) == e.reason.is_some()));
    assert_eq!(report.events.last().unwrap().cash_after, report.final_equity);
}

#[test]
fn no_more_positions_are_open_than_slots() {
    let report = busy_report();
    let mut open: Vec<(String, f64)> = Vec::new();
    for event in &report.events {
        let held = open.iter().position(|(ticker, _)| *ticker == event.ticker);
        match event.side {
            Side::Buy => {
                assert!(held.is_none());
                assert!(event.shares.0 > 0.0);
                assert_eq!(event.shares.0 % 1_000.0, 0.0);
                assert!(event.cash_after.0 >= 0.0);
                open.push((event.ticker.clone(), event.shares.0));
            }
            Side::Sell => {
                let (_, shares) = open.remove(held.unwrap());
                assert_eq!(shares, event.shares.0);
            }
        }
        assert!(open.len() <= 3);
    }
    assert!(open.is_empty());
}

#[test]
fn legal_ticks_enclose_the_price() {
    for price in [0.37, 9.999, 10.01, 49.97, 50.04, 99.96, 100.3, 123.5, 499.9, 640.4, 1_203.0] {
        let tick = tick_size(F64(price)).0;
        let floor = tick_floor(F64(price)).0;
        let ceil = tick_ceil(F64(price)).0;
        assert!(floor <= price + 1e-8 && price - floor < tick);
        assert!(price <= ceil + 1e-8 && ceil - price < tick);
        let gap = (ceil - floor) / tick;
        assert!(gap.abs() < 1e-6 || (gap - 1.0).abs() < 1e-6);
    }
}

#[test]
fn the_curve_has_one_point_per_day() {
    let report = busy_report();
    let dates: Vec<i32> = report.equity_curve.iter().map(|point| point.date).collect();
    assert_eq!(dates, vec![date(1), date(2), date(3), date(4)]);

    let report = portfolio::run(&winning_days(), &simple_config(1_000_000.0, 2));
    let dates: Vec<i32> = report.equity_curve.iter().map(|point| point.date).collect();
    assert_eq!(dates, vec![date(1), date(2), date(3)]);
    // Bought at 10, marked at the closes 11 and 15.
    assert!((report.equity_curve[0].equity.0 - (499_287.5 + 550_000.0)).abs() < 1e-6);
    assert!((report.equity_curve[1].equity.0 - (499_287.5 + 750_000.0)).abs() < 1e-6);
}

#[test]
fn a_run_over_no_days_keeps_the_cash() {
    let days: Vec<TradingDay<F64>> = Vec::new();
    let report = engine::run(&days, &config(5.0, 1));
    assert_eq!(report.final_equity.0, 5.0);
    assert_eq!(report.annualized_return.0, 0.0);
    assert_eq!(report.profit_factor.0, 0.0);
    assert_eq!(report.win_rate.0, 0.0);
    assert_eq!(report.sharpe.0, 0.0);
    assert!(report.equity_curve.is_empty());
}

#[test]
fn mean_and_ratio_are_zero_when_empty() {
    assert_eq!(mean(&Vec::<F64>::new()).0, 0.0);
    assert_eq!(mean(&vec![F64(1.0), F64(2.0), F64(6.0)]).0, 3.0);
    assert_eq!(ratio::<F64>(1, 0).0, 0.0);
    assert_eq!(ratio::<F64>(1, 4).0, 0.25);
}

fn curve(values: &[f64]) -> Vec<EquityPoint<F64>> {
    values
        .iter()
        .enumerate()
        .map(|(at, value)| EquityPoint { date: date(at as i32 + 1), equity: F64(*value) })
        .collect()
}

#[test]
fn sharpe_is_annualized_from_daily_returns() {
    assert_eq!(annualized_sharpe(&curve(&[100.0])).0, 0.0);
    assert_eq!(annualized_sharpe(&curve(&[100.0, 100.0, 100.0])).0, 0.0);
    // Returns 0.1 and 0.3: mean 0.2, deviation 0.1.
    let sharpe = annualized_sharpe(&curve(&[100.0, 110.0, 143.0])).0;
    assert!((sharpe - 2.0 * 252.0f64.sqrt()).abs() < 1e-9);
}

#[test]
fn annualized_return_is_linear() {
    let report = BacktestReport::new(
        F64(100.0),
        Vec::new(),
        Vec::new(),
        curve(&[100.0, 110.0]),
    );
    assert!((report.cumulative_return.0 - 0.1).abs() < 1e-12);
    assert!((report.annualized_return.0 - 0.1 / 2.0 * 252.0).abs() < 1e-12);
}

#[test]
fn ranked_names_keep_byte_order_on_ties() {
    let entry = |key: i64, name: &str, slot: usize| Ranked { key, name: name.to_string(), slot };
    let list = sort_ranked(vec![entry(2, "a", 0), entry(1, "z", 1), entry(1, "Z", 2)]);
    let slots: Vec<usize> = list.iter().map(|found| found.slot).collect();
    assert_eq!(slots, vec![2, 1, 0]);

    let placed = sort_placed(&vec![
        Placed { key: 3, slot: 0 },
        Placed { key: -1, slot: 1 },
        Placed { key: 3, slot: 2 },
        Placed { key: -1, slot: 3 },
    ]);
    let slots: Vec<usize> = placed.iter().map(|found| found.slot).collect();
    assert_eq!(slots, vec![1, 3, 0, 2]);
}

#[test]
fn ntd_has_thousands_separators() {
    assert_eq!(format_ntd(F64(100_000_000.0)), "NT$100,000,000");
    assert_eq!(format_ntd(F64(-1_234.0)), "NT$-1,234");
    assert_eq!(format_ntd(F64(999.4)), "NT$999");
    assert_eq!(format_ntd(F64(0.0)), "NT$0");
}

fn trade(reason: ExitReason) -> Trade<F64> {
    Trade {
        ticker: "A".to_string(),
        entry_date: date(1),
        exit_date: date(2),
        entry_price: F64(10.0),
        exit_price: F64(11.0),
        shares: F64(1_000.0),
        cost: F64(10_000.0),
        proceeds: F64(11_000.0),
        pnl: F64(1_000.0),
        return_pct: F64(0.1),
        exit_reason: reason,
    }
}

#[test]
fn exit_tally_counts_by_reason() {
    let trades = vec![
        trade(ExitReason::Time),
        trade(ExitReason::TakeProfit),
        trade(ExitReason::Time),
        trade(ExitReason::Final),
    ];
    assert_eq!(
        exit_tally(&trades),
        "take-profit 1 / stop-loss 0 / time 2 / signal 0 / rotate 0 / final 1"
    );
}

#[test]
fn summary_row_is_aligned() {
    let mut out = String::from("x\n");
    summary_row(&mut out, "dates", "none");
    assert_eq!(out, "x\n    dates             : none\n");
}

#[test]
fn summary_is_grouped() {
    let report = BacktestReport::new(
        F64(1_000_000.0),
        vec![trade(ExitReason::Final)],
        Vec::new(),
        curve(&[1_000_000.0, 1_001_000.0]),
    );
    let context = RenderContext {
        tickers: 7,
        windows_scored: 12,
        threshold: F64(f64::from(0.2f32)),
        fill: Fill::LowHigh,
    };
    let expected = "Backtest summary
  Window
    dates             : 2026-01-01 -> 2026-01-02
    trading days      : 2
    tickers scored    : 7
    windows scored    : 12
    buy gate          : score > 0.20
    rotate hurdle     : 0.585% edge gain (one round trip)
    fills             : low/high (optimistic)
  Performance
    starting cash     : NT$1,000,000
    final equity      : NT$1,001,000
    cumulative        : +0.10%
    annualized        : +12.60%
    sharpe            : 0.00  (daily returns, annualized)
    trades            : 1
    exits             : take-profit 0 / stop-loss 0 / time 0 / signal 0 / rotate 0 / final 1
    win rate          : 100.0%  (trades closed in profit)
    profit factor     : inf  (gross profit / gross loss)
    average win / loss: +10.00% / +0.00%  (return on cost)
  Note: annualized is naive linear (x252 per day), unreliable under ~30 trading days
";
    assert_eq!(summary(&report, &context), expected);

    let empty = BacktestReport::new(F64(1.0), Vec::new(), Vec::new(), Vec::new());
    let text = summary(&empty, &RenderContext { fill: Fill::Open, ..context });
    assert!(text.contains("    dates             : none\n"));
    assert!(text.contains("    fills             : open (pessimistic)\n"));
    assert!(text.contains("    profit factor     : 0.00  (gross profit / gross loss)\n"));
}

#[test]
fn render_lists_the_metrics() {
    let report = portfolio::run(&winning_days(), &simple_config(1_000_000.0, 2));
    let expected = "Portfolio backtest (3 trading days):
  starting cash    :          1000000
  final equity     :          1494862
  cumulative return: +49.49%
  annualized       : +4156.85%
  trades           : 1
  win rate         : 100.0%
  profit factor    : inf (no losing trades)
  avg win / loss   : +98.83% / +0.00%
";
    assert_eq!(portfolio::render(&report), expected);

    let report = portfolio::run(&winner_and_loser_days(), &simple_config(2_000_000.0, 2));
    assert!(portfolio::render(&report).contains("  profit factor    : 10.43\n"));
}

#[test]
fn starting_cash_is_the_platforms() {
    assert_eq!(portfolio::STARTING_CASH, 100_000_000);
}

#[test]
fn names_of_sides_reasons_and_actions() {
    assert_eq!(Side::Buy.as_str(), "Buy");
    assert_eq!(Side::Sell.as_str(), "Sell");
    assert_eq!(ExitReason::TakeProfit.as_str(), "take_profit");
    assert_eq!(ExitReason::StopLoss.as_str(), "stop_loss");
    assert_eq!(ExitReason::Time.as_str(), "time");
    assert_eq!(ExitReason::Signal.as_str(), "signal");
    assert_eq!(ExitReason::Rotate.as_str(), "rotate");
    assert_eq!(ExitReason::Final.as_str(), "final");
    assert_eq!(Action::Sell.as_str(), "Sell");
    assert_eq!(Action::Hold.as_str(), "Hold");
    assert_eq!(Action::Buy.as_str(), "Buy");
}

fn window(ticker: &str, day: i32) -> InferenceWindow<F64> {
    InferenceWindow { ticker: ticker.to_string(), date: date(day), features: Vec::new() }
}

fn quotes(ticker: &str, days: &[i32], close: &[f64]) -> TickerQuotes<F64> {
    let prices: Vec<F64> = close.iter().map(|price| F64(*price)).collect();
    TickerQuotes {
        ticker: ticker.to_string(),
        dates: days.iter().map(|day| date(*day)).collect(),
        open: prices.clone(),
        high: prices.iter().map(|price| F64(price.0 + 1.0)).collect(),
        low: prices.iter().map(|price| F64(price.0 - 1.0)).collect(),
        close: prices,
    }
}

#[test]
fn later_signals_override_earlier_ones() {
    let windows = vec![window("A", 1), window("B", 1), window("A", 1)];
    let signals = index_signals(&windows, &vec![F64(0.1), F64(0.2), F64(0.3)]);
    assert_eq!(signals.get(&"A".to_string(), date(1)), Some(F64(0.3)));
    assert_eq!(signals.get(&"B".to_string(), date(1)), Some(F64(0.2)));
    assert_eq!(signals.get(&"A".to_string(), date(2)), None);
    assert_eq!(signals.get(&"C".to_string(), date(1)), None);
}

#[test]
fn days_use_the_signal_of_the_row_before() {
    let windows = vec![window("A", 1), window("A", 2), window("B", 2), window("A", 3)];
    let signals = index_signals(&windows, &vec![F64(0.5), F64(-0.5), F64(0.7), F64(0.9)]);
    let all = vec![
        quotes("A", &[1, 2, 3], &[10.0, 11.0, 12.0]),
        quotes("B", &[2, 3, 4], &[20.0, f64::NAN, 22.0]),
    ];

    let days = build_days(&all, &signals);

    // A trades on days 2 and 3 on the scores of days 1 and 2; B has no price on day 3, and
    // no score for its day 4.
    assert_eq!(days.len(), 2);
    assert_eq!(days[0].date, date(2));
    assert_eq!(days[0].bars.len(), 1);
    assert_eq!(days[0].bars[0].ticker, "A");
    assert_eq!(days[0].bars[0].bar.score, F64(0.5));
    assert_eq!(days[0].bars[0].bar.action, Action::Buy);
    assert_eq!(days[0].bars[0].bar.close, F64(11.0));
    assert_eq!(days[0].bars[0].bar.low, F64(10.0));
    assert_eq!(days[0].bars[0].bar.high, F64(12.0));
    assert_eq!(days[1].date, date(3));
    assert_eq!(days[1].bars.len(), 1);
    assert_eq!(days[1].bars[0].bar.score, F64(-0.5));
    assert_eq!(days[1].bars[0].bar.action, Action::Sell);
}

#[test]
fn days_ascend_whatever_the_order_of_quotes() {
    let windows = vec![window("A", 3), window("B", 1), window("C", 3)];
    let signals = index_signals(&windows, &vec![F64(0.5), F64(0.6), F64(0.7)]);
    let all = vec![
        quotes("A", &[3, 5], &[10.0, 11.0]),
        quotes("B", &[1, 2], &[20.0, 21.0]),
        quotes("C", &[3, 5], &[30.0, 31.0]),
    ];
    let days = build_days(&all, &signals);
    let dates: Vec<i32> = days.iter().map(|day| day.date).collect();
    assert_eq!(dates, vec![date(2), date(5)]);
    assert_eq!(days[1].bars.len(), 2);
}

fn prediction(ticker: &str, day: i32, action: Action, position: f64) -> Prediction<F64> {
    Prediction {
        ticker: ticker.to_string(),
        date: date(day),
        action,
        p_sell: F64(0.1),
        p_hold: F64(0.2),
        p_buy: F64(0.7),
        position: F64(position),
    }
}

#[test]
fn predictions_list_buy_candidates_by_strength() {
    let predictions = vec![
        prediction("2330", 30, Action::Buy, 0.4),
        prediction("2317", 31, Action::Hold, 0.05),
        prediction("1101", 29, Action::Buy, 0.6),
        prediction("9999", 31, Action::Sell, 0.4),
    ];
    let expected = "Predictions as of 2026-01-31 (4 tickers): Sell 1  Hold 1  Buy 2

Buy candidates (position > 0.10):
  TICKER   ACTION P(Sell) P(Hold)  P(Buy)  POSITION
  1101     Buy      0.100   0.200   0.700     0.600
  2330     Buy      0.100   0.200   0.700     0.400
  9999     Sell     0.100   0.200   0.700     0.400
";
    assert_eq!(print(&predictions, F64(0.1)), expected);

    assert_eq!(
        print(&predictions, F64(0.9)),
        "Predictions as of 2026-01-31 (4 tickers): Sell 1  Hold 1  Buy 2

Buy candidates (position > 0.90):
  none above threshold; staying flat.
"
    );
    assert_eq!(
        print(&Vec::<Prediction<F64>>::new(), F64(0.1)),
        "No tickers had enough history to fill the model's window.\n"
    );
}
