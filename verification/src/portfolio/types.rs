//! What the backtest reads, keeps, and reports.
use vstd::prelude::*;

verus! {

/// The model's call on one ticker.
#[derive(Clone, Copy, Debug, PartialEq, Eq, Structural)]
pub enum Action {
    Sell,
    Hold,
    Buy,
}

impl Action {
    /// The class index, `Sell` zero to `Buy` two.
    pub open spec fn class(self) -> nat {
        match self {
            Action::Sell => 0,
            Action::Hold => 1,
            Action::Buy => 2,
        }
    }

    /// The name that tables print.
    pub fn as_str(&self) -> (name: &'static str)
        ensures
            name@ == (match *self {
                Action::Sell => "Sell"@,
                Action::Hold => "Hold"@,
                Action::Buy => "Buy"@,
            }),
    {
        match self {
            Action::Sell => "Sell",
            Action::Hold => "Hold",
            Action::Buy => "Buy",
        }
    }
}

/// Why a holding was closed.
#[derive(Clone, Copy, Debug, PartialEq, Eq, Structural)]
pub enum ExitReason {
    TakeProfit,
    StopLoss,
    Time,
    Signal,
    Rotate,
    Final,
}

impl ExitReason {
    /// The name that the trade and action logs print.
    pub fn as_str(&self) -> (name: &'static str)
        ensures
            name@ == (match *self {
                ExitReason::TakeProfit => "take_profit"@,
                ExitReason::StopLoss => "stop_loss"@,
                ExitReason::Time => "time"@,
                ExitReason::Signal => "signal"@,
                ExitReason::Rotate => "rotate"@,
                ExitReason::Final => "final"@,
            }),
    {
        match self {
            ExitReason::TakeProfit => "take_profit",
            ExitReason::StopLoss => "stop_loss",
            ExitReason::Time => "time",
            ExitReason::Signal => "signal",
            ExitReason::Rotate => "rotate",
            ExitReason::Final => "final",
        }
    }
}

/// Which side of the book an order executed on.
#[derive(Clone, Copy, Debug, PartialEq, Eq, Structural)]
pub enum Side {
    Buy,
    Sell,
}

impl Side {
    /// The name that the action log prints.
    pub fn as_str(&self) -> (name: &'static str)
        ensures
            name@ == (match *self {
                Side::Buy => "Buy"@,
                Side::Sell => "Sell"@,
            }),
    {
        match self {
            Side::Buy => "Buy",
            Side::Sell => "Sell",
        }
    }
}

/// Which intraday prices the simulated orders fill at.
#[derive(Clone, Copy, Debug, PartialEq, Eq, Structural)]
pub enum Fill {
    /// Optimistic best case: buy at the day's low, sell at the day's high.
    LowHigh,
    /// Pessimistic comparison: buy and sell at the day's open.
    Open,
}

/// Knobs that shape one backtest run.
#[derive(Clone, Copy)]
pub struct BacktestConfig<N> {
    /// Score that a stock has to exceed to be bought.
    pub threshold: N,
    /// Which prices fills happen at.
    pub fill: Fill,
    /// Most stocks held at once; each new buy targets `equity / max_holdings`.
    pub max_holdings: usize,
    /// Opening balance.
    pub starting_cash: N,
    /// Take-profit exit, a positive fraction of the entry price.
    pub take_profit: N,
    /// Stop-loss exit, a positive fraction of the entry price.
    pub stop_loss: N,
    /// Trading days to hold before a time exit, the vertical barrier.
    pub max_hold_days: usize,
}

/// One ticker's signal and prices on one trading day. `score` and `action` are the
/// model's call, already lagged to the previous close.
#[derive(Clone, Copy)]
pub struct DayBar<N> {
    pub score: N,
    pub action: Action,
    pub open: N,
    pub low: N,
    pub high: N,
    pub close: N,
}

/// A bar under its ticker.
pub struct TickerBar<N> {
    pub ticker: String,
    pub bar: DayBar<N>,
}

/// Every ticker's bar for one trading day, in date order across the run. Dates are day
/// numbers of the Gregorian calendar, 1 January of year 1 being day 1.
pub struct TradingDay<N> {
    pub date: i32,
    pub bars: Vec<TickerBar<N>>,
}

/// No two of the bars stand under one ticker.
pub open spec fn distinct_bars<N>(bars: Seq<TickerBar<N>>) -> bool {
    forall|i: int, j: int|
        #![trigger bars[i], bars[j]]
        0 <= i < j < bars.len() ==> bars[i].ticker@ != bars[j].ticker@
}

/// The bar at `slot` stands under `ticker`.
pub open spec fn bar_stands<N>(bars: Seq<TickerBar<N>>, ticker: Seq<char>, slot: int) -> bool {
    0 <= slot < bars.len() && bars[slot].ticker@ == ticker
}

/// The bar under `ticker`, if there is one.
pub open spec fn bar_of<N>(bars: Seq<TickerBar<N>>, ticker: Seq<char>) -> Option<DayBar<N>> {
    if exists|slot: int| bar_stands(bars, ticker, slot) {
        Some(bars[choose|slot: int| bar_stands(bars, ticker, slot)].bar)
    } else {
        None
    }
}

impl<N> TradingDay<N> {
    /// Each ticker has at most one bar.
    pub open spec fn wf(&self) -> bool {
        distinct_bars(self.bars@)
    }
}

/// Where the bar of `ticker` stands, the number of bars if there is none.
pub fn find_bar<N>(bars: &Vec<TickerBar<N>>, ticker: &String) -> (slot: usize)
    requires
        distinct_bars(bars@),
    ensures
        slot <= bars.len(),
        slot < bars.len() ==> bars[slot as int].ticker@ == ticker@ && bar_of(bars@, ticker@)
            == Some(bars[slot as int].bar),
        slot == bars.len() ==> bar_of(bars@, ticker@) is None,
{
    let mut slot: usize = 0;
    while slot < bars.len()
        invariant
            slot <= bars.len(),
            distinct_bars(bars@),
            forall|i: int| 0 <= i < slot ==> (#[trigger] bars@[i]).ticker@ != ticker@,
        decreases bars.len() - slot,
    {
        if bars[slot].ticker == *ticker {
            assert(bar_stands(bars@, ticker@, slot as int));
            return slot;
        }
        slot = slot + 1;
    }
    slot
}

/// An open position.
#[derive(Clone, Copy)]
pub struct Holding<N> {
    /// Whole shares held, a whole number of lots.
    pub shares: N,
    /// Cash paid to open, the buy commission counted in.
    pub cost: N,
    /// Most recent close seen, used to value the holding on days it has no bar.
    pub mark: N,
    pub entry_date: i32,
    pub entry_price: N,
    /// Day-loop index at entry, for counting trading days held.
    pub entry_index: usize,
}

/// A holding under its ticker.
pub struct Position<N> {
    pub ticker: String,
    pub holding: Holding<N>,
}

/// A completed round trip.
pub struct Trade<N> {
    pub ticker: String,
    pub entry_date: i32,
    pub exit_date: i32,
    pub entry_price: N,
    pub exit_price: N,
    pub shares: N,
    /// Cash paid to open, the buy commission counted in.
    pub cost: N,
    /// Cash received on close, net of commission and the sell tax.
    pub proceeds: N,
    /// Net profit in cash, `proceeds - cost`.
    pub pnl: N,
    /// Net return on cost, `pnl / cost`.
    pub return_pct: N,
    /// Exit rule that closed the trade.
    pub exit_reason: ExitReason,
}

/// One executed buy or sell, for the action log.
pub struct TradeEvent<N> {
    pub date: i32,
    pub ticker: String,
    pub side: Side,
    /// Exit rule for a sell, `None` for a buy.
    pub reason: Option<ExitReason>,
    pub price: N,
    pub shares: N,
    /// Gross fill value, `price * shares`, before fees.
    pub amount: N,
    pub cash_after: N,
}

/// Mutable account state the day phases evolve: cash, open positions, and the trade
/// and action logs.
pub struct Ledger<N> {
    pub cash: N,
    pub holdings: Vec<Position<N>>,
    pub trades: Vec<Trade<N>>,
    pub events: Vec<TradeEvent<N>>,
}

/// The account state as plain sequences.
#[verifier::ext_equal]
pub struct Account<N> {
    pub cash: N,
    pub holdings: Seq<Position<N>>,
    pub trades: Seq<Trade<N>>,
    pub events: Seq<TradeEvent<N>>,
}

impl<N> View for Ledger<N> {
    type V = Account<N>;

    open spec fn view(&self) -> Account<N> {
        Account {
            cash: self.cash,
            holdings: self.holdings@,
            trades: self.trades@,
            events: self.events@,
        }
    }
}

/// Some position is open in `ticker`.
pub open spec fn holds<N>(holdings: Seq<Position<N>>, ticker: Seq<char>) -> bool {
    exists|i: int| 0 <= i < holdings.len() && (#[trigger] holdings[i]).ticker@ == ticker
}

/// No ticker is held twice.
pub open spec fn distinct_holdings<N>(holdings: Seq<Position<N>>) -> bool {
    forall|i: int, j: int|
        #![trigger holdings[i], holdings[j]]
        0 <= i < j < holdings.len() ==> holdings[i].ticker@ != holdings[j].ticker@
}

/// Where the position in `ticker` stands, the number of positions if there is none.
pub fn find_holding<N>(holdings: &Vec<Position<N>>, ticker: &String) -> (at: usize)
    ensures
        at <= holdings.len(),
        at < holdings.len() ==> holdings[at as int].ticker@ == ticker@,
        at < holdings.len() <==> holds(holdings@, ticker@),
{
    let mut at: usize = 0;
    while at < holdings.len()
        invariant
            at <= holdings.len(),
            forall|i: int| 0 <= i < at ==> (#[trigger] holdings@[i]).ticker@ != ticker@,
        decreases holdings.len() - at,
    {
        if holdings[at].ticker == *ticker {
            assert(holdings@[at as int].ticker@ == ticker@);
            return at;
        }
        at = at + 1;
    }
    at
}

/// Whether a position is open in `ticker`.
pub fn is_held<N>(holdings: &Vec<Position<N>>, ticker: &String) -> (held: bool)
    ensures
        held == holds(holdings@, ticker@),
{
    find_holding(holdings, ticker) < holdings.len()
}

/// The account value at the close of one trading day, for the equity curve.
#[derive(Clone, Copy)]
pub struct EquityPoint<N> {
    pub date: i32,
    pub equity: N,
}

/// The backtest outcome and the platform's performance metrics.
pub struct BacktestReport<N> {
    pub starting_cash: N,
    pub final_equity: N,
    pub cumulative_return: N,
    pub annualized_return: N,
    pub trade_count: usize,
    pub win_rate: N,
    pub profit_factor: N,
    pub avg_win_return: N,
    pub avg_loss_return: N,
    /// Annualized Sharpe of the daily equity returns, the honest risk-adjusted figure.
    pub sharpe: N,
    pub trading_days: usize,
    pub equity_curve: Vec<EquityPoint<N>>,
    pub trades: Vec<Trade<N>>,
    pub events: Vec<TradeEvent<N>>,
}

} // verus!
