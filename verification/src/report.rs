//! Predictions as text, with the buy candidates in order of strength.
use vstd::prelude::*;
use vstd::seq_lib::*;
use vstd::string::StringExecFns;

use crate::calendar::date_text;
#[allow(unused_imports)]
use crate::calendar::{day_text, valid_day};
use crate::number::Number;
#[allow(unused_imports)]
use crate::number::{exceeds_is, rank_is, text_is};
use crate::portfolio::ranking::{sort_placed, Placed};
#[allow(unused_imports)]
use crate::portfolio::ranking::placed_in_order;
use crate::portfolio::types::Action;
use crate::text::{decimal_text, left_aligned, right_aligned};
#[allow(unused_imports)]
use crate::text::{decimal, pad_left, pad_right};

pub mod meaning;

verus! {

/// What the model says of one ticker.
pub struct Prediction<N> {
    pub ticker: String,
    /// Date of the last bar that the prediction is made from.
    pub date: i32,
    pub action: Action,
    pub p_sell: N,
    pub p_hold: N,
    pub p_buy: N,
    /// How strong the long signal is.
    pub position: N,
}

/// The latest date among the first `count` predictions, of which there is at least one.
pub open spec fn as_of<N>(predictions: Seq<Prediction<N>>, count: nat) -> i32
    decreases count,
{
    if count <= 1 {
        predictions[0].date
    } else {
        let earlier = as_of(predictions, (count - 1) as nat);
        if predictions[count - 1].date > earlier {
            predictions[count - 1].date
        } else {
            earlier
        }
    }
}

/// How many of the first `count` predictions call for `action`.
pub open spec fn action_count<N>(
    predictions: Seq<Prediction<N>>,
    action: Action,
    count: nat,
) -> nat
    decreases count,
{
    if count == 0 {
        0
    } else {
        action_count(predictions, action, (count - 1) as nat) + if predictions[count - 1].action
            == action {
            1nat
        } else {
            0nat
        }
    }
}

/// The name that tables print for an action.
pub open spec fn action_name(action: Action) -> Seq<char> {
    match action {
        Action::Sell => "Sell"@,
        Action::Hold => "Hold"@,
        Action::Buy => "Buy"@,
    }
}

/// `picks` says of each prediction whether its position exceeds the minimum.
pub open spec fn picks_are<N: Number>(
    predictions: Seq<Prediction<N>>,
    min_position: N,
    picks: Seq<bool>,
) -> bool {
    &&& picks.len() == predictions.len()
    &&& forall|i: int|
        0 <= i < predictions.len() ==> exceeds_is(
            predictions[i].position,
            min_position,
            #[trigger] picks[i],
        )
}

/// `entry` stands for the prediction in its slot, its key the smaller the higher the
/// position ranks.
pub open spec fn stands_for<N: Number>(predictions: Seq<Prediction<N>>, entry: Placed) -> bool {
    &&& entry.slot < predictions.len()
    &&& exists|rank: i64|
        rank_is(predictions[entry.slot as int].position, rank) && entry.key == -1 - rank
}

/// Some entry of `list` was found in `slot`.
pub open spec fn lists_slot(list: Seq<Placed>, slot: int) -> bool {
    exists|k: int| 0 <= k < list.len() && (#[trigger] list[k]).slot == slot
}

/// `list` holds the picked predictions, each once, strongest first; equally strong ones keep
/// their order.
pub open spec fn candidates_are<N: Number>(
    predictions: Seq<Prediction<N>>,
    picks: Seq<bool>,
    list: Seq<Placed>,
) -> bool {
    &&& placed_in_order(list)
    &&& forall|k: int|
        0 <= k < list.len() ==> stands_for(predictions, #[trigger] list[k])
            && picks[list[k].slot as int]
    &&& forall|slot: int|
        0 <= slot < predictions.len() && picks[slot] ==> #[trigger] lists_slot(list, slot)
    &&& forall|i: int, j: int|
        #![trigger list[i], list[j]]
        0 <= i < j < list.len() ==> list[i].slot != list[j].slot
}

/// `text` is the table row of one prediction.
pub open spec fn row_is<N: Number>(prediction: Prediction<N>, text: Seq<char>) -> bool {
    exists|sell: Seq<char>, hold: Seq<char>, buy: Seq<char>, position: Seq<char>|
        {
            &&& #[trigger] text_is(prediction.p_sell, 3, false, sell)
            &&& #[trigger] text_is(prediction.p_hold, 3, false, hold)
            &&& #[trigger] text_is(prediction.p_buy, 3, false, buy)
            &&& #[trigger] text_is(prediction.position, 3, false, position)
            &&& text == "  "@ + pad_right(prediction.ticker@, 8) + " "@ + pad_right(
                action_name(prediction.action),
                6,
            ) + " "@ + pad_left(sell, 7) + " "@ + pad_left(hold, 7) + " "@ + pad_left(buy, 7)
                + " "@ + pad_left(position, 9) + "\n"@
        }
}

/// `text` is the rows of the first `count` candidates.
pub open spec fn rows_are<N: Number>(
    predictions: Seq<Prediction<N>>,
    list: Seq<Placed>,
    count: nat,
    text: Seq<char>,
) -> bool
    decreases count,
{
    if count == 0 {
        text.len() == 0
    } else {
        exists|earlier: Seq<char>, row: Seq<char>|
            {
                &&& rows_are(predictions, list, (count - 1) as nat, earlier)
                &&& #[trigger] row_is(predictions[list[count - 1].slot as int], row)
                &&& text == #[trigger] (earlier + row)
            }
    }
}

/// The line that counts the predictions.
pub open spec fn headline<N>(predictions: Seq<Prediction<N>>) -> Seq<char> {
    let count = predictions.len();
    "Predictions as of "@ + day_text(as_of(predictions, count)) + " ("@ + decimal(count)
        + " tickers): Sell "@ + decimal(action_count(predictions, Action::Sell, count))
        + "  Hold "@ + decimal(action_count(predictions, Action::Hold, count)) + "  Buy "@
        + decimal(action_count(predictions, Action::Buy, count)) + "\n"@
}

/// `text` is the table of candidates, or says that there is none.
pub open spec fn table_is<N: Number>(
    predictions: Seq<Prediction<N>>,
    list: Seq<Placed>,
    text: Seq<char>,
) -> bool {
    if list.len() == 0 {
        text == "  none above threshold; staying flat.\n"@
    } else {
        exists|rows: Seq<char>| #[trigger]
            rows_are(predictions, list, list.len(), rows) && text
                == "  TICKER   ACTION P(Sell) P(Hold)  P(Buy)  POSITION\n"@ + rows
    }
}

/// `text` is the report on the predictions: their count, and the buy candidates, strongest
/// first.
pub open spec fn report_is<N: Number>(
    predictions: Seq<Prediction<N>>,
    min_position: N,
    text: Seq<char>,
) -> bool {
    if predictions.len() == 0 {
        text == "No tickers had enough history to fill the model's window.\n"@
    } else {
        exists|gate: Seq<char>, picks: Seq<bool>, list: Seq<Placed>, table: Seq<char>|
            {
                &&& text_is(min_position, 2, false, gate)
                &&& picks_are(predictions, min_position, picks)
                &&& #[trigger] candidates_are(predictions, picks, list)
                &&& #[trigger] table_is(predictions, list, table)
                &&& text == #[trigger] (headline(predictions) + "\nBuy candidates (position > "@
                    + gate + "):\n"@ + table)
            }
    }
}

/// The latest date among the predictions.
fn latest_date<N: Number>(predictions: &Vec<Prediction<N>>) -> (day: i32)
    requires
        predictions@.len() > 0,
    ensures
        day == as_of(predictions@, predictions@.len()),
        exists|i: int| 0 <= i < predictions@.len() && (#[trigger] predictions@[i]).date == day,
{
    let mut day: i32 = predictions[0].date;
    let mut at: usize = 1;
    while at < predictions.len()
        invariant
            1 <= at <= predictions@.len(),
            day == as_of(predictions@, at as nat),
            exists|i: int| 0 <= i < predictions@.len() && (#[trigger] predictions@[i]).date == day,
        decreases predictions.len() - at,
    {
        if predictions[at].date > day {
            day = predictions[at].date;
        }
        at = at + 1;
    }
    day
}

/// Count the predictions that call for `action`.
fn count_action<N: Number>(predictions: &Vec<Prediction<N>>, action: Action) -> (count: usize)
    ensures
        count == action_count(predictions@, action, predictions@.len()),
{
    let mut count: usize = 0;
    let mut at: usize = 0;
    while at < predictions.len()
        invariant
            count <= at <= predictions@.len(),
            count == action_count(predictions@, action, at as nat),
        decreases predictions.len() - at,
    {
        if predictions[at].action == action {
            count = count + 1;
        }
        at = at + 1;
    }
    count
}

/// The predictions whose position exceeds the minimum, strongest first.
fn candidates<N: Number>(predictions: &Vec<Prediction<N>>, min_position: N) -> (list: Vec<Placed>)
    ensures
        exists|picks: Seq<bool>| #[trigger]
            picks_are(predictions@, min_position, picks) && candidates_are(
                predictions@,
                picks,
                list@,
            ),
{
    let mut found: Vec<Placed> = Vec::new();
    let ghost mut picks: Seq<bool> = Seq::empty();
    let mut slot: usize = 0;
    while slot < predictions.len()
        invariant
            slot <= predictions@.len(),
            picks.len() == slot,
            forall|i: int|
                0 <= i < slot ==> exceeds_is(
                    predictions@[i].position,
                    min_position,
                    #[trigger] picks[i],
                ),
            forall|k: int|
                0 <= k < found@.len() ==> stands_for(predictions@, #[trigger] found@[k])
                    && found@[k].slot < slot && picks[found@[k].slot as int],
            forall|i: int, j: int|
                #![trigger found@[i], found@[j]]
                0 <= i < j < found@.len() ==> found@[i].slot < found@[j].slot,
            forall|i: int| 0 <= i < slot && picks[i] ==> #[trigger] lists_slot(found@, i),
        decreases predictions.len() - slot,
    {
        let ghost before = found@;
        let position = predictions[slot].position;
        let pick = position.exceeds(min_position);
        if pick {
            let rank = position.rank();
            found.push(Placed { key: -1 - rank, slot });
        }
        proof {
            picks = picks.push(pick);
            assert(forall|k: int| 0 <= k < before.len() ==> #[trigger] found@[k] == before[k]);
            assert forall|i: int| 0 <= i < slot + 1 && picks[i] implies #[trigger] lists_slot(
                found@,
                i,
            ) by {
                if i < slot {
                    assert(lists_slot(before, i));
                    let k = choose|k: int|
                        0 <= k < before.len() && (#[trigger] before[k]).slot == i;
                    assert(found@[k].slot == i);
                } else {
                    assert(found@[found@.len() - 1].slot == i);
                }
            }
        }
        slot = slot + 1;
    }
    let list = sort_placed(&found);
    proof {
        lemma_same_entries(found@, list@);
        assert forall|k: int| 0 <= k < list@.len() implies stands_for(
            predictions@,
            #[trigger] list@[k],
        ) && picks[list@[k].slot as int] by {
            assert(found@.contains(list@[k]));
        }
        assert forall|i: int| 0 <= i < predictions@.len() && picks[i] implies #[trigger] lists_slot(
            list@,
            i,
        ) by {
            assert(lists_slot(found@, i));
            let k = choose|k: int| 0 <= k < found@.len() && (#[trigger] found@[k]).slot == i;
            assert(list@.contains(found@[k]));
            let l = choose|l: int| 0 <= l < list@.len() && list@[l] == found@[k];
            assert(list@[l].slot == i);
        }
        assert(picks_are(predictions@, min_position, picks));
        assert(candidates_are(predictions@, picks, list@));
    }
    list
}

/// Entries from distinct slots stay the same entries, from distinct slots, in any order.
proof fn lemma_same_entries(given: Seq<Placed>, list: Seq<Placed>)
    requires
        forall|i: int, j: int|
            #![trigger given[i], given[j]]
            0 <= i < j < given.len() ==> given[i].slot < given[j].slot,
        list.to_multiset() == given.to_multiset(),
    ensures
        forall|k: int| 0 <= k < list.len() ==> given.contains(#[trigger] list[k]),
        forall|k: int| 0 <= k < given.len() ==> list.contains(#[trigger] given[k]),
        forall|i: int, j: int|
            #![trigger list[i], list[j]]
            0 <= i < j < list.len() ==> list[i].slot != list[j].slot,
{
    broadcast use group_to_multiset_ensures;

    assert forall|k: int| 0 <= k < list.len() implies given.contains(#[trigger] list[k]) by {
        assert(list.contains(list[k]));
        assert(list.to_multiset().count(list[k]) > 0);
    }
    assert forall|k: int| 0 <= k < given.len() implies list.contains(#[trigger] given[k]) by {
        assert(given.contains(given[k]));
        assert(given.to_multiset().count(given[k]) > 0);
    }
    assert(given.no_duplicates());
    given.lemma_multiset_has_no_duplicates();
    list.lemma_multiset_has_no_duplicates_conv();
    assert forall|i: int, j: int|
        #![trigger list[i], list[j]]
        0 <= i < j < list.len() implies list[i].slot != list[j].slot by {
        assert(given.contains(list[i]) && given.contains(list[j]));
        let p = choose|p: int| 0 <= p < given.len() && given[p] == list[i];
        let q = choose|q: int| 0 <= q < given.len() && given[q] == list[j];
        assert(list[i] != list[j]);
        if p < q {
            assert(given[p].slot < given[q].slot);
        } else {
            assert(given[q].slot < given[p].slot);
        }
    }
}

/// The table row of one prediction.
fn row_text<N: Number>(prediction: &Prediction<N>) -> (text: String)
    ensures
        row_is(*prediction, text@),
{
    let sell = prediction.p_sell.text(3, false);
    let hold = prediction.p_hold.text(3, false);
    let buy = prediction.p_buy.text(3, false);
    let position = prediction.position.text(3, false);
    let mut text = String::from_str("  ");
    text.append(left_aligned(prediction.ticker.as_str(), 8).as_str());
    text.append(" ");
    text.append(left_aligned(prediction.action.as_str(), 6).as_str());
    text.append(" ");
    text.append(right_aligned(sell.as_str(), 7).as_str());
    text.append(" ");
    text.append(right_aligned(hold.as_str(), 7).as_str());
    text.append(" ");
    text.append(right_aligned(buy.as_str(), 7).as_str());
    text.append(" ");
    text.append(right_aligned(position.as_str(), 9).as_str());
    text.append("\n");
    proof {
        assert(text_is(prediction.p_sell, 3, false, sell@));
        assert(text_is(prediction.p_hold, 3, false, hold@));
        assert(text_is(prediction.p_buy, 3, false, buy@));
        assert(text_is(prediction.position, 3, false, position@));
    }
    text
}

/// The table of candidates.
fn table_text<N: Number>(predictions: &Vec<Prediction<N>>, list: &Vec<Placed>) -> (text: String)
    requires
        forall|k: int| 0 <= k < list@.len() ==> (#[trigger] list@[k]).slot < predictions@.len(),
    ensures
        table_is(predictions@, list@, text@),
{
    if list.len() == 0 {
        return String::from_str("  none above threshold; staying flat.\n");
    }
    let mut rows = String::new();
    let mut at: usize = 0;
    while at < list.len()
        invariant
            at <= list@.len(),
            forall|k: int| 0 <= k < list@.len() ==> (#[trigger] list@[k]).slot < predictions@.len(),
            rows_are(predictions@, list@, at as nat, rows@),
        decreases list.len() - at,
    {
        let ghost earlier = rows@;
        assert(list@[at as int].slot < predictions@.len());
        let row = row_text(&predictions[list[at].slot]);
        rows.append(row.as_str());
        at = at + 1;
        proof {
            let count = at as nat;
            assert(rows_are(predictions@, list@, (count - 1) as nat, earlier));
            assert(row_is(predictions@[list@[count - 1].slot as int], row@));
            assert(rows@ == earlier + row@);
        }
    }
    assert(rows_are(predictions@, list@, list@.len(), rows@));
    let mut text = String::from_str("  TICKER   ACTION P(Sell) P(Hold)  P(Buy)  POSITION\n");
    text.append(rows.as_str());
    text
}

/// The predictions as text: their count, and the buy candidates sorted by how strong the
/// long signal is. This is an offline diagnostic, so it reports the actions a trader would
/// take without placing any order.
pub fn print<N: Number>(predictions: &Vec<Prediction<N>>, min_position: N) -> (text: String)
    requires
        forall|i: int|
            0 <= i < predictions@.len() ==> valid_day((#[trigger] predictions@[i]).date as int),
    ensures
        report_is(predictions@, min_position, text@),
{
    if predictions.len() == 0 {
        return String::from_str("No tickers had enough history to fill the model's window.\n");
    }
    let day = latest_date(predictions);
    let mut text = String::from_str("Predictions as of ");
    text.append(date_text(day).as_str());
    text.append(" (");
    text.append(decimal_text(predictions.len() as u64).as_str());
    text.append(" tickers): Sell ");
    text.append(decimal_text(count_action(predictions, Action::Sell) as u64).as_str());
    text.append("  Hold ");
    text.append(decimal_text(count_action(predictions, Action::Hold) as u64).as_str());
    text.append("  Buy ");
    text.append(decimal_text(count_action(predictions, Action::Buy) as u64).as_str());
    text.append("\n");
    assert(text@ =~= headline(predictions@));
    let list = candidates(predictions, min_position);
    let ghost picks = choose|picks: Seq<bool>| #[trigger]
        picks_are(predictions@, min_position, picks) && candidates_are(predictions@, picks, list@);
    assert forall|k: int| 0 <= k < list@.len() implies (#[trigger] list@[k]).slot
        < predictions@.len() by {
        assert(stands_for(predictions@, list@[k]));
    }
    let gate = min_position.text(2, false);
    let table = table_text(predictions, &list);
    text.append("\nBuy candidates (position > ");
    text.append(gate.as_str());
    text.append("):\n");
    text.append(table.as_str());
    proof {
        assert(text_is(min_position, 2, false, gate@));
        assert(candidates_are(predictions@, picks, list@));
        assert(table_is(predictions@, list@, table@));
        assert(text@ == headline(predictions@) + "\nBuy candidates (position > "@ + gate@ + "):\n"@
            + table@);
    }
    text
}

} // verus!
