//! What the report says of the predictions: how recent they are, how many call for what, and
//! which come first.
use vstd::prelude::*;

#[allow(unused_imports)]
use crate::number::{exact, exceeds_is, rank_is, Number};
#[allow(unused_imports)]
use crate::portfolio::ranking::{placed_in_order, Placed};
#[allow(unused_imports)]
use crate::portfolio::types::Action;
#[allow(unused_imports)]
use crate::reals::ranks_by;
#[allow(unused_imports)]
use crate::report::{
    action_count, as_of, candidates_are, lists_slot, picks_are, stands_for, Prediction,
};

verus! {

/// The report is dated by the most recent prediction: one bears that date, and none a later.
pub proof fn latest_prediction_dates_the_report<N>(predictions: Seq<Prediction<N>>, count: nat)
    requires
        0 < count <= predictions.len(),
    ensures
        exists|i: int|
            0 <= i < count && (#[trigger] predictions[i]).date == as_of(predictions, count),
        forall|i: int|
            0 <= i < count ==> (#[trigger] predictions[i]).date <= as_of(predictions, count),
    decreases count,
{
    if count == 1 {
        assert(predictions[0].date == as_of(predictions, count));
    } else {
        latest_prediction_dates_the_report(predictions, (count - 1) as nat);
        let earlier = as_of(predictions, (count - 1) as nat);
        if predictions[count - 1].date <= earlier {
            let i = choose|i: int|
                0 <= i < count - 1 && (#[trigger] predictions[i]).date == earlier;
            assert(predictions[i].date == as_of(predictions, count));
        }
    }
}

/// Every prediction is counted under the action that it calls for, and under no other.
pub proof fn every_prediction_is_counted_once<N>(predictions: Seq<Prediction<N>>)
    ensures
        forall|action: Action| #[trigger]
            action_count(predictions, action, predictions.len()) == predictions.map_values(
                |prediction: Prediction<N>| prediction.action,
            ).to_multiset().count(action),
        action_count(predictions, Action::Sell, predictions.len()) + action_count(
            predictions,
            Action::Hold,
            predictions.len(),
        ) + action_count(predictions, Action::Buy, predictions.len()) == predictions.len(),
{
    lemma_counted(predictions, predictions.len());
    assert(predictions.take(predictions.len() as int) =~= predictions);
}

proof fn lemma_counted<N>(predictions: Seq<Prediction<N>>, count: nat)
    requires
        count <= predictions.len(),
    ensures
        forall|action: Action| #[trigger]
            action_count(predictions, action, count) == predictions.take(count as int).map_values(
                |prediction: Prediction<N>| prediction.action,
            ).to_multiset().count(action),
        action_count(predictions, Action::Sell, count) + action_count(
            predictions,
            Action::Hold,
            count,
        ) + action_count(predictions, Action::Buy, count) == count,
    decreases count,
{
    broadcast use vstd::seq_lib::group_to_multiset_ensures;

    let action_of = |prediction: Prediction<N>| prediction.action;
    let called = predictions.take(count as int).map_values(action_of);
    if count == 0 {
        assert(called =~= Seq::<Action>::empty());
        assert forall|action: Action| #[trigger]
            action_count(predictions, action, count) == called.to_multiset().count(action) by {
            if called.to_multiset().count(action) > 0 {
                assert(called.contains(action));
            }
        }
    } else {
        let fewer = predictions.take(count - 1).map_values(action_of);
        lemma_counted(predictions, (count - 1) as nat);
        assert(called =~= fewer.push(predictions[count - 1].action));
        assert forall|action: Action| #[trigger]
            action_count(predictions, action, count) == called.to_multiset().count(action) by {
            assert(action_count(predictions, action, (count - 1) as nat)
                == fewer.to_multiset().count(action));
        }
        assert(action_count(predictions, Action::Sell, (count - 1) as nat) + action_count(
            predictions,
            Action::Hold,
            (count - 1) as nat,
        ) + action_count(predictions, Action::Buy, (count - 1) as nat) == count - 1);
    }
}

/// The candidates are exactly the predictions whose position is above the minimum, each once,
/// and none comes after one with a lower position.
pub proof fn strongest_candidates_come_first<N: Number>(
    predictions: Seq<Prediction<N>>,
    min_position: N,
    picks: Seq<bool>,
    list: Seq<Placed>,
    value: spec_fn(N) -> real,
)
    requires
        exact(value),
        ranks_by(value),
        picks_are(predictions, min_position, picks),
        candidates_are(predictions, picks, list),
    ensures
        forall|i: int, j: int|
            #![trigger list[i], list[j]]
            0 <= i < j < list.len() ==> {
                &&& list[i].slot != list[j].slot
                &&& value(predictions[list[i].slot as int].position) >= value(
                    predictions[list[j].slot as int].position,
                )
                &&& value(predictions[list[i].slot as int].position) == value(
                    predictions[list[j].slot as int].position,
                ) ==> list[i].slot < list[j].slot
            },
        forall|slot: int|
            0 <= slot < predictions.len() ==> (#[trigger] lists_slot(list, slot) <==> value(
                predictions[slot].position,
            ) > value(min_position)),
        forall|k: int| 0 <= k < list.len() ==> (#[trigger] list[k]).slot < predictions.len(),
{
    assert forall|i: int, j: int|
        #![trigger list[i], list[j]]
        0 <= i < j < list.len() implies {
        &&& list[i].slot != list[j].slot
        &&& value(predictions[list[i].slot as int].position) >= value(
            predictions[list[j].slot as int].position,
        )
        &&& value(predictions[list[i].slot as int].position) == value(
            predictions[list[j].slot as int].position,
        ) ==> list[i].slot < list[j].slot
    } by {
        let (first, second) = (
            predictions[list[i].slot as int].position,
            predictions[list[j].slot as int].position,
        );
        assert(stands_for(predictions, list[i]) && stands_for(predictions, list[j]));
        let r = choose|rank: i64| rank_is(first, rank) && list[i].key == -1 - rank;
        let s = choose|rank: i64| rank_is(second, rank) && list[j].key == -1 - rank;
        assert(rank_is(first, r) && rank_is(second, s));
    }
    assert forall|slot: int| 0 <= slot < predictions.len() implies (#[trigger] lists_slot(
        list,
        slot,
    ) <==> value(predictions[slot].position) > value(min_position)) by {
        assert(exceeds_is(predictions[slot].position, min_position, picks[slot]));
        if lists_slot(list, slot) {
            let k = choose|k: int| 0 <= k < list.len() && (#[trigger] list[k]).slot == slot;
            assert(picks[list[k].slot as int]);
        }
    }
}

} // verus!
