//! The backtest summary as text.
use vstd::prelude::*;
use vstd::string::StrSliceExecFns;
use vstd::string::StringExecFns;

use crate::calendar::date_text;
#[allow(unused_imports)]
use crate::calendar::{day_text, valid_day};
use crate::number::Number;
#[allow(unused_imports)]
use crate::number::{exact, finite_is, product_is, ratio_is, text_is};
use crate::portfolio::pricing::round_trip_cost;
#[allow(unused_imports)]
use crate::portfolio::pricing::round_trip_cost_is;
use crate::portfolio::types::{BacktestReport, EquityPoint, ExitReason, Fill, Trade};
#[allow(unused_imports)]
use crate::reals::lemma_whole;
use crate::text::{decimal_text, left_aligned};
#[allow(unused_imports)]
use crate::text::{decimal, pad_right};

verus! {

/// Window-level context for the summary, the parts the report itself does not carry.
pub struct RenderContext<N> {
    pub tickers: usize,
    pub windows_scored: usize,
    pub threshold: N,
    pub fill: Fill,
}

/// `digits` with a comma before every group of three, counted from the right.
pub open spec fn grouped(digits: Seq<char>) -> Seq<char>
    decreases digits.len(),
{
    if digits.len() <= 3 {
        digits
    } else {
        grouped(digits.take(digits.len() - 3)) + ","@ + digits.skip(digits.len() - 3)
    }
}

/// Set commas between groups of three.
fn group(digits: &str) -> (text: String)
    ensures
        text@ == grouped(digits@),
    decreases digits@.len(),
{
    let length = digits.unicode_len();
    if length <= 3 {
        String::from_str(digits)
    } else {
        let head = digits.substring_char(0, length - 3);
        let tail = digits.substring_char(length - 3, length);
        assert(head@ =~= digits@.take(digits@.len() - 3));
        assert(tail@ =~= digits@.skip(digits@.len() - 3));
        let mut text = group(head);
        text.append(",");
        text.append(tail);
        text
    }
}

/// A whole amount in NT$: the sign, and the digits in groups of three.
pub open spec fn ntd(amount: Seq<char>) -> Seq<char> {
    if amount.len() > 0 && amount[0] == '-' {
        "NT$"@ + "-"@ + grouped(amount.skip(1))
    } else {
        "NT$"@ + grouped(amount)
    }
}

/// `text` is `value` in NT$ with thousands separators and no decimals.
pub open spec fn ntd_is<N: Number>(value: N, text: Seq<char>) -> bool {
    exists|amount: Seq<char>| #[trigger] text_is(value, 0, false, amount) && text == ntd(amount)
}

/// NT$ with thousands separators, no decimals, e.g. `NT$100,000,000`.
pub fn format_ntd<N: Number>(value: N) -> (text: String)
    ensures
        ntd_is(value, text@),
{
    let rounded = value.text(0, false);
    assert(text_is(value, 0, false, rounded@));
    let amount = rounded.as_str();
    let length = amount.unicode_len();
    let mut text = String::from_str("NT$");
    if length > 0 && amount.get_char(0) == '-' {
        let rest = amount.substring_char(1, length);
        assert(rest@ =~= amount@.skip(1));
        text.append("-");
        let digits = group(rest);
        text.append(digits.as_str());
    } else {
        let digits = group(amount);
        text.append(digits.as_str());
    }
    text
}

/// How many trades closed for `reason`.
pub open spec fn reason_count<N>(trades: Seq<Trade<N>>, reason: ExitReason) -> nat
    decreases trades.len(),
{
    if trades.len() == 0 {
        0
    } else {
        reason_count(trades.drop_last(), reason) + if trades.last().exit_reason == reason {
            1nat
        } else {
            0nat
        }
    }
}

/// Count the trades that closed for `reason`.
fn count_reason<N>(trades: &Vec<Trade<N>>, reason: ExitReason) -> (text: String)
    ensures
        text@ == decimal(reason_count(trades@, reason)),
{
    let mut count: usize = 0;
    let mut at: usize = 0;
    while at < trades.len()
        invariant
            count <= at <= trades.len(),
            count == reason_count(trades@.take(at as int), reason),
        decreases trades.len() - at,
    {
        assert(trades@.take(at + 1).drop_last() =~= trades@.take(at as int));
        if trades[at].exit_reason == reason {
            count = count + 1;
        }
        at = at + 1;
    }
    assert(trades@.take(at as int) =~= trades@);
    decimal_text(count as u64)
}

/// The trades counted by exit reason.
pub open spec fn tally<N>(trades: Seq<Trade<N>>) -> Seq<char> {
    "take-profit "@ + decimal(reason_count(trades, ExitReason::TakeProfit)) + " / stop-loss "@
        + decimal(reason_count(trades, ExitReason::StopLoss)) + " / time "@ + decimal(
        reason_count(trades, ExitReason::Time),
    ) + " / signal "@ + decimal(reason_count(trades, ExitReason::Signal)) + " / rotate "@ + decimal(
        reason_count(trades, ExitReason::Rotate),
    ) + " / final "@ + decimal(reason_count(trades, ExitReason::Final))
}

/// Count trades by exit reason, e.g.
/// `take-profit 12 / stop-loss 9 / time 5 / signal 2 / rotate 4 / final 1`.
pub fn exit_tally<N>(trades: &Vec<Trade<N>>) -> (text: String)
    ensures
        text@ == tally(trades@),
{
    let mut text = String::from_str("take-profit ");
    text.append(count_reason(trades, ExitReason::TakeProfit).as_str());
    text.append(" / stop-loss ");
    text.append(count_reason(trades, ExitReason::StopLoss).as_str());
    text.append(" / time ");
    text.append(count_reason(trades, ExitReason::Time).as_str());
    text.append(" / signal ");
    text.append(count_reason(trades, ExitReason::Signal).as_str());
    text.append(" / rotate ");
    text.append(count_reason(trades, ExitReason::Rotate).as_str());
    text.append(" / final ");
    text.append(count_reason(trades, ExitReason::Final).as_str());
    text
}

/// One aligned row of a summary section.
pub open spec fn row(label: Seq<char>, value: Seq<char>) -> Seq<char> {
    "    "@ + pad_right(label, 18) + ": "@ + value + "\n"@
}

/// Append one aligned `label : value` row under a summary section.
pub fn summary_row(out: &mut String, label: &str, value: &str)
    ensures
        final(out)@ == old(out)@ + row(label@, value@),
{
    let padded = left_aligned(label, 18);
    out.append("    ");
    out.append(padded.as_str());
    out.append(": ");
    out.append(value);
    out.append("\n");
    assert(out@ =~= old(out)@ + row(label@, value@));
}

/// `text` is the fraction `value` as a percentage, without its sign.
pub open spec fn percent_is<N: Number>(
    value: N,
    decimals: usize,
    signed: bool,
    text: Seq<char>,
) -> bool {
    exists|hundred: N, scaled: N|
        {
            &&& ratio_is(100, 1, hundred)
            &&& #[trigger] product_is(value, hundred, scaled)
            &&& #[trigger] text_is(scaled, decimals, signed, text)
        }
}

/// The fraction `value` as a percentage, without its sign.
pub fn percent_text<N: Number>(value: N, decimals: usize, signed: bool) -> (text: String)
    ensures
        percent_is(value, decimals, signed, text@),
{
    let hundred = N::from_ratio(100, 1);
    let scaled = value.times(hundred);
    assert(product_is(value, hundred, scaled));
    let text = scaled.text(decimals, signed);
    assert(text_is(scaled, decimals, signed, text@));
    text
}

/// `text` is the profit factor with two decimals, `unbounded` standing for one that is not
/// finite.
pub open spec fn factor_is<N: Number>(factor: N, unbounded: Seq<char>, text: Seq<char>) -> bool {
    exists|finite: bool| #[trigger]
        finite_is(factor, finite) && if finite {
            text_is(factor, 2, false, text)
        } else {
            text == unbounded
        }
}

/// The profit factor with two decimals, `unbounded` if it is not finite.
pub fn factor_text<N: Number>(factor: N, unbounded: &str) -> (text: String)
    ensures
        factor_is(factor, unbounded@, text@),
{
    if factor.is_finite() {
        let text = factor.text(2, false);
        assert(text_is(factor, 2, false, text@));
        text
    } else {
        String::from_str(unbounded)
    }
}

/// The day range of the equity curve.
pub open spec fn date_range<N>(curve: Seq<EquityPoint<N>>) -> Seq<char> {
    if curve.len() == 0 {
        "none"@
    } else {
        day_text(curve.first().date) + " -> "@ + day_text(curve.last().date)
    }
}

/// First and last date of the equity curve.
fn date_range_text<N>(curve: &Vec<EquityPoint<N>>) -> (text: String)
    requires
        curve.len() > 0 ==> valid_day(curve@.first().date as int) && valid_day(
            curve@.last().date as int,
        ),
    ensures
        text@ == date_range(curve@),
{
    if curve.len() == 0 {
        String::from_str("none")
    } else {
        let mut text = date_text(curve[0].date);
        text.append(" -> ");
        text.append(date_text(curve[curve.len() - 1].date).as_str());
        text
    }
}

/// The numbers of a summary, as text.
pub struct SummaryParts {
    pub gate: Seq<char>,
    pub hurdle: Seq<char>,
    pub opening: Seq<char>,
    pub closing: Seq<char>,
    pub cumulative: Seq<char>,
    pub annualized: Seq<char>,
    pub sharpe: Seq<char>,
    pub win_rate: Seq<char>,
    pub factor: Seq<char>,
    pub win: Seq<char>,
    pub loss: Seq<char>,
}

/// `parts` are the numbers of the report and its context, each in its own format.
pub open spec fn parts_are<N: Number>(
    report: BacktestReport<N>,
    context: RenderContext<N>,
    parts: SummaryParts,
) -> bool {
    &&& text_is(context.threshold, 2, false, parts.gate)
    &&& exists|cost: N| #[trigger]
        round_trip_cost_is(cost) && percent_is(cost, 3, false, parts.hurdle)
    &&& ntd_is(report.starting_cash, parts.opening)
    &&& ntd_is(report.final_equity, parts.closing)
    &&& percent_is(report.cumulative_return, 2, true, parts.cumulative)
    &&& percent_is(report.annualized_return, 2, true, parts.annualized)
    &&& text_is(report.sharpe, 2, false, parts.sharpe)
    &&& percent_is(report.win_rate, 1, false, parts.win_rate)
    &&& factor_is(report.profit_factor, "inf"@, parts.factor)
    &&& percent_is(report.avg_win_return, 2, true, parts.win)
    &&& percent_is(report.avg_loss_return, 2, true, parts.loss)
}

/// How the fills are described.
pub open spec fn fill_name(fill: Fill) -> Seq<char> {
    match fill {
        Fill::LowHigh => "low/high (optimistic)"@,
        Fill::Open => "open (pessimistic)"@,
    }
}

/// The section on what was tested.
pub open spec fn window_section<N>(
    report: BacktestReport<N>,
    context: RenderContext<N>,
    parts: SummaryParts,
) -> Seq<char> {
    "  Window\n"@ + row("dates"@, date_range(report.equity_curve@)) + row(
        "trading days"@,
        decimal(report.trading_days as nat),
    ) + row("tickers scored"@, decimal(context.tickers as nat)) + row(
        "windows scored"@,
        decimal(context.windows_scored as nat),
    ) + row("buy gate"@, "score > "@ + parts.gate) + row(
        "rotate hurdle"@,
        parts.hurdle + "% edge gain (one round trip)"@,
    ) + row("fills"@, fill_name(context.fill))
}

/// The section on how it went.
pub open spec fn performance_section<N>(report: BacktestReport<N>, parts: SummaryParts) -> Seq<
    char,
> {
    "  Performance\n"@ + row("starting cash"@, parts.opening) + row("final equity"@, parts.closing)
        + row("cumulative"@, parts.cumulative + "%"@) + row("annualized"@, parts.annualized + "%"@)
        + row("sharpe"@, parts.sharpe + "  (daily returns, annualized)"@) + row(
        "trades"@,
        decimal(report.trade_count as nat),
    ) + row("exits"@, tally(report.trades@)) + row(
        "win rate"@,
        parts.win_rate + "%  (trades closed in profit)"@,
    ) + row("profit factor"@, parts.factor + "  (gross profit / gross loss)"@) + row(
        "average win / loss"@,
        parts.win + "% / "@ + parts.loss + "%  (return on cost)"@,
    )
}

/// `text` is the grouped summary of the report.
pub open spec fn summary_is<N: Number>(
    report: BacktestReport<N>,
    context: RenderContext<N>,
    text: Seq<char>,
) -> bool {
    exists|parts: SummaryParts| #[trigger]
        parts_are(report, context, parts) && text == "Backtest summary\n"@ + window_section(
            report,
            context,
            parts,
        ) + performance_section(report, parts)
            + "  Note: annualized is naive linear (x252 per day), unreliable under ~30 trading days\n"@
}

/// Two texts, one behind the other.
fn joined(head: &str, tail: &str) -> (text: String)
    ensures
        text@ == head@ + tail@,
{
    let mut text = String::from_str(head);
    text.append(tail);
    text
}

/// Build the grouped summary as one string, so the caller prints it in a single write.
#[must_use]
pub fn summary<N: Number>(report: &BacktestReport<N>, context: &RenderContext<N>) -> (text: String)
    requires
        report.equity_curve@.len() > 0 ==> valid_day(report.equity_curve@.first().date as int)
            && valid_day(report.equity_curve@.last().date as int),
    ensures
        summary_is(*report, *context, text@),
{
    let fill = match context.fill {
        Fill::LowHigh => "low/high (optimistic)",
        Fill::Open => "open (pessimistic)",
    };
    let dates = date_range_text(&report.equity_curve);
    let exits = exit_tally(&report.trades);
    let gate = context.threshold.text(2, false);
    let cost: N = round_trip_cost();
    let hurdle = percent_text(cost, 3, false);
    let opening = format_ntd(report.starting_cash);
    let closing = format_ntd(report.final_equity);
    let cumulative = percent_text(report.cumulative_return, 2, true);
    let annualized = percent_text(report.annualized_return, 2, true);
    let sharpe = report.sharpe.text(2, false);
    let win_rate = percent_text(report.win_rate, 1, false);
    let factor = factor_text(report.profit_factor, "inf");
    let win = percent_text(report.avg_win_return, 2, true);
    let loss = percent_text(report.avg_loss_return, 2, true);
    let ghost parts = SummaryParts {
        gate: gate@,
        hurdle: hurdle@,
        opening: opening@,
        closing: closing@,
        cumulative: cumulative@,
        annualized: annualized@,
        sharpe: sharpe@,
        win_rate: win_rate@,
        factor: factor@,
        win: win@,
        loss: loss@,
    };
    proof {
        assert(text_is(context.threshold, 2, false, gate@));
        assert(round_trip_cost_is(cost));
        assert(text_is(report.sharpe, 2, false, sharpe@));
        assert(parts_are(*report, *context, parts));
    }
    let mut out = String::from_str("  Window\n");
    summary_row(&mut out, "dates", dates.as_str());
    summary_row(&mut out, "trading days", decimal_text(report.trading_days as u64).as_str());
    summary_row(&mut out, "tickers scored", decimal_text(context.tickers as u64).as_str());
    summary_row(&mut out, "windows scored", decimal_text(context.windows_scored as u64).as_str());
    summary_row(&mut out, "buy gate", joined("score > ", gate.as_str()).as_str());
    summary_row(
        &mut out,
        "rotate hurdle",
        joined(hurdle.as_str(), "% edge gain (one round trip)").as_str(),
    );
    summary_row(&mut out, "fills", fill);
    assert(out@ =~= window_section(*report, *context, parts));

    let mut more = String::from_str("  Performance\n");
    summary_row(&mut more, "starting cash", opening.as_str());
    summary_row(&mut more, "final equity", closing.as_str());
    summary_row(&mut more, "cumulative", joined(cumulative.as_str(), "%").as_str());
    summary_row(&mut more, "annualized", joined(annualized.as_str(), "%").as_str());
    summary_row(
        &mut more,
        "sharpe",
        joined(sharpe.as_str(), "  (daily returns, annualized)").as_str(),
    );
    summary_row(&mut more, "trades", decimal_text(report.trade_count as u64).as_str());
    summary_row(&mut more, "exits", exits.as_str());
    summary_row(
        &mut more,
        "win rate",
        joined(win_rate.as_str(), "%  (trades closed in profit)").as_str(),
    );
    summary_row(
        &mut more,
        "profit factor",
        joined(factor.as_str(), "  (gross profit / gross loss)").as_str(),
    );
    let mut both = joined(win.as_str(), "% / ");
    both.append(loss.as_str());
    both.append("%  (return on cost)");
    summary_row(&mut more, "average win / loss", both.as_str());
    assert(more@ =~= performance_section(*report, parts));

    let mut text = String::from_str("Backtest summary\n");
    text.append(out.as_str());
    text.append(more.as_str());
    text.append(
        "  Note: annualized is naive linear (x252 per day), unreliable under ~30 trading days\n",
    );
    text
}

/// Commas stand in every fourth place from the right and nowhere else, and without them the
/// digits are as they were.
pub proof fn commas_part_groups_of_three(digits: Seq<char>)
    requires
        !digits.contains(','),
    ensures
        forall|i: int|
            0 <= i < grouped(digits).len() ==> (#[trigger] grouped(digits)[i] == ',' <==> (
            grouped(digits).len() - i) % 4 == 0),
        grouped(digits).len() > 0 ==> grouped(digits)[0] != ',',
        grouped(digits).filter(|c: char| c != ',') == digits,
{
    lemma_comma_places(digits);
    lemma_digits_kept(digits);
}

proof fn lemma_halves(digits: Seq<char>)
    requires
        !digits.contains(','),
        digits.len() > 3,
    ensures
        !digits.take(digits.len() - 3).contains(','),
        !digits.skip(digits.len() - 3).contains(','),
{
    let (head, tail) = (digits.take(digits.len() - 3), digits.skip(digits.len() - 3));
    assert forall|i: int| 0 <= i < head.len() implies head[i] != ',' by {
        assert(digits.contains(digits[i]));
    }
    assert forall|i: int| 0 <= i < tail.len() implies tail[i] != ',' by {
        assert(digits.contains(digits[digits.len() - 3 + i]));
    }
}

proof fn lemma_comma_places(digits: Seq<char>)
    requires
        !digits.contains(','),
    ensures
        digits.len() > 0 ==> grouped(digits).len() > 0 && grouped(digits)[0] != ',',
        digits.len() == 0 ==> grouped(digits).len() == 0,
        forall|i: int|
            0 <= i < grouped(digits).len() ==> (#[trigger] grouped(digits)[i] == ',' <==> (
            grouped(digits).len() - i) % 4 == 0),
    decreases digits.len(),
{
    if digits.len() <= 3 {
        assert forall|i: int| 0 <= i < digits.len() implies #[trigger] digits[i] != ',' by {
            assert(digits.contains(digits[i]));
        }
    } else {
        let (head, tail) = (digits.take(digits.len() - 3), digits.skip(digits.len() - 3));
        lemma_halves(digits);
        lemma_comma_places(head);
        reveal_strlit(",");
        let before = grouped(head).len() as int;
        let whole = grouped(digits);
        assert(whole == grouped(head) + ","@ + tail);
        assert(whole.len() == before + 4);
        assert forall|i: int| 0 <= i < whole.len() implies (#[trigger] whole[i] == ',' <==> (
        whole.len() - i) % 4 == 0) by {
            if i < before {
                assert(whole[i] == grouped(head)[i]);
            } else if i > before {
                assert(whole[i] == tail[i - before - 1]);
                assert(tail.contains(tail[i - before - 1]));
            }
        }
        assert(whole[0] == grouped(head)[0]);
    }
}

proof fn lemma_digits_kept(digits: Seq<char>)
    requires
        !digits.contains(','),
    ensures
        grouped(digits).filter(|c: char| c != ',') == digits,
    decreases digits.len(),
{
    let shown = |c: char| c != ',';
    if digits.len() <= 3 {
        lemma_nothing_dropped(digits);
    } else {
        let (head, tail) = (digits.take(digits.len() - 3), digits.skip(digits.len() - 3));
        lemma_halves(digits);
        lemma_digits_kept(head);
        lemma_nothing_dropped(tail);
        let comma = ","@;
        lemma_comma_dropped();
        Seq::filter_distributes_over_add(grouped(head), comma, shown);
        Seq::filter_distributes_over_add(grouped(head) + comma, tail, shown);
        assert(grouped(digits) == grouped(head) + comma + tail);
        assert(head + Seq::<char>::empty() + tail =~= digits);
    }
}

proof fn lemma_comma_dropped()
    ensures
        ","@.filter(|c: char| c != ',') == Seq::<char>::empty(),
{
    reveal_strlit(",");
    reveal(Seq::filter);
    let comma = ","@;
    assert(comma.last() == ',');
    assert(comma.drop_last() =~= Seq::<char>::empty());
    assert(comma.drop_last().filter(|c: char| c != ',') =~= Seq::<char>::empty());
}

proof fn lemma_nothing_dropped(digits: Seq<char>)
    requires
        !digits.contains(','),
    ensures
        digits.filter(|c: char| c != ',') == digits,
    decreases digits.len(),
{
    reveal(Seq::filter);
    if digits.len() > 0 {
        assert(digits.contains(digits.last()));
        assert forall|i: int| 0 <= i < digits.drop_last().len() implies digits.drop_last()[i]
            != ',' by {
            assert(digits.contains(digits[i]));
        }
        lemma_nothing_dropped(digits.drop_last());
        assert(digits.drop_last().push(digits.last()) =~= digits);
    }
}

/// Every trade is counted under the reason it closed for, and under no other.
pub proof fn every_trade_is_tallied_once<N>(trades: Seq<Trade<N>>)
    ensures
        forall|reason: ExitReason| #[trigger]
            reason_count(trades, reason) == trades.map_values(
                |trade: Trade<N>| trade.exit_reason,
            ).to_multiset().count(reason),
        reason_count(trades, ExitReason::TakeProfit) + reason_count(trades, ExitReason::StopLoss)
            + reason_count(trades, ExitReason::Time) + reason_count(trades, ExitReason::Signal)
            + reason_count(trades, ExitReason::Rotate) + reason_count(trades, ExitReason::Final)
            == trades.len(),
    decreases trades.len(),
{
    broadcast use vstd::seq_lib::group_to_multiset_ensures;

    let reason_of = |trade: Trade<N>| trade.exit_reason;
    let reasons = trades.map_values(reason_of);
    if trades.len() == 0 {
        assert forall|reason: ExitReason| #[trigger]
            reason_count(trades, reason) == reasons.to_multiset().count(reason) by {
            if reasons.to_multiset().count(reason) > 0 {
                assert(reasons.contains(reason));
            }
        }
    } else {
        let fewer = trades.drop_last().map_values(reason_of);
        every_trade_is_tallied_once(trades.drop_last());
        assert(reasons =~= fewer.push(trades.last().exit_reason));
        assert forall|reason: ExitReason| #[trigger]
            reason_count(trades, reason) == reasons.to_multiset().count(reason) by {
            assert(reason_count(trades.drop_last(), reason) == fewer.to_multiset().count(reason));
        }
    }
}

/// In an exact format a percentage is the text of a hundred times the fraction.
pub proof fn percentages_are_hundredfold<N: Number>(
    value: spec_fn(N) -> real,
    fraction: N,
    decimals: usize,
    signed: bool,
    text: Seq<char>,
)
    requires
        exact(value),
        percent_is(fraction, decimals, signed, text),
    ensures
        exists|shown: N| #[trigger]
            text_is(shown, decimals, signed, text) && value(shown) == value(fraction) * 100 as real,
{
    let (hundred, scaled) = choose|hundred: N, scaled: N|
        {
            &&& ratio_is(100, 1, hundred)
            &&& #[trigger] product_is(fraction, hundred, scaled)
            &&& #[trigger] text_is(scaled, decimals, signed, text)
        };
    lemma_whole(value, 100, hundred);
    assert(text_is(scaled, decimals, signed, text));
}

} // verus!
