//! Putting names in order of strength.
use vstd::prelude::*;
use vstd::seq_lib::*;

use crate::text::name_at_or_before;
#[allow(unused_imports)]
use crate::text::{
    name_order_is_antisymmetric, name_order_is_total, name_order_is_transitive, names_ordered,
};

verus! {

/// Something to be put in order: by `key`, then by `name`. `slot` says where it was found.
pub struct Ranked {
    pub key: i64,
    pub name: String,
    pub slot: usize,
}

/// `a` may stand before `b`.
pub open spec fn in_order(a: Ranked, b: Ranked) -> bool {
    a.key < b.key || (a.key == b.key && names_ordered(a.name@, b.name@))
}

/// Each entry may stand before every later one.
pub open spec fn sorted(list: Seq<Ranked>) -> bool {
    forall|i: int, j: int|
        #![trigger list[i], list[j]]
        0 <= i < j < list.len() ==> in_order(list[i], list[j])
}

proof fn lemma_order_total(a: Ranked, b: Ranked)
    ensures
        in_order(a, b) || in_order(b, a),
{
    name_order_is_total(a.name@, b.name@);
}

proof fn lemma_order_transitive(a: Ranked, b: Ranked, c: Ranked)
    requires
        in_order(a, b),
        in_order(b, c),
    ensures
        in_order(a, c),
{
    if a.key == b.key && b.key == c.key {
        name_order_is_transitive(a.name@, b.name@, c.name@);
    }
}

/// Whether `a` may stand before `b`.
fn may_precede(a: &Ranked, b: &Ranked) -> (ordered: bool)
    ensures
        ordered == in_order(*a, *b),
{
    if a.key != b.key {
        a.key < b.key
    } else {
        name_at_or_before(a.name.as_str(), b.name.as_str())
    }
}

/// Put the entries in order: smallest key first, names breaking ties.
pub fn sort_ranked(items: Vec<Ranked>) -> (list: Vec<Ranked>)
    ensures
        sorted(list@),
        list@.to_multiset() == items@.to_multiset(),
{
    let ghost given = items@;
    let mut rest = items;
    let mut list: Vec<Ranked> = Vec::new();
    proof {
        broadcast use group_to_multiset_ensures;

        assert(list@.to_multiset() =~= Seq::<Ranked>::empty().to_multiset());
    }
    while rest.len() > 0
        invariant
            sorted(list@),
            rest@.to_multiset().add(list@.to_multiset()) =~= given.to_multiset(),
        decreases rest.len(),
    {
        let ghost before = list@;
        let ghost pending = rest@;
        match rest.pop() {
            None => {},
            Some(entry) => {
                let mut at: usize = 0;
                while at < list.len() && may_precede(&list[at], &entry)
                    invariant
                        at <= list.len(),
                        forall|i: int| 0 <= i < at ==> in_order(#[trigger] list@[i], entry),
                    decreases list.len() - at,
                {
                    at = at + 1;
                }
                proof {
                    if at < list.len() {
                        lemma_order_total(list@[at as int], entry);
                    }
                    assert forall|i: int| at <= i < list.len() implies in_order(
                        entry,
                        #[trigger] list@[i],
                    ) by {
                        if i > at {
                            lemma_order_transitive(entry, list@[at as int], list@[i]);
                        }
                    }
                }
                list.insert(at, entry);
                proof {
                    broadcast use group_to_multiset_ensures;

                    assert(pending =~= rest@.push(entry));
                    assert(list@ =~= before.insert(at as int, entry));
                    to_multiset_insert(before, at as int, entry);
                    assert(list@.to_multiset() =~= before.to_multiset().insert(entry));
                    assert(pending.to_multiset() =~= rest@.to_multiset().insert(entry));
                }
            },
        }
    }
    proof {
        broadcast use group_to_multiset_ensures;

        assert(rest@ =~= Seq::<Ranked>::empty());
        assert(rest@.to_multiset() =~= vstd::multiset::Multiset::<Ranked>::empty());
        assert(list@.to_multiset() =~= given.to_multiset());
    }
    list
}

/// No two entries were found in one slot.
pub open spec fn distinct_slots(list: Seq<Ranked>) -> bool {
    forall|i: int, j: int|
        #![trigger list[i], list[j]]
        0 <= i < j < list.len() ==> list[i].slot != list[j].slot
}

/// Entries from distinct slots stay the same entries, from distinct slots, in any order.
pub proof fn lemma_reordered(given: Seq<Ranked>, list: Seq<Ranked>)
    requires
        distinct_slots(given),
        list.to_multiset() == given.to_multiset(),
    ensures
        list.len() == given.len(),
        distinct_slots(list),
        forall|k: int| 0 <= k < list.len() ==> given.contains(#[trigger] list[k]),
        forall|k: int| 0 <= k < given.len() ==> list.contains(#[trigger] given[k]),
{
    broadcast use group_to_multiset_ensures;

    assert forall|k: int| 0 <= k < list.len() implies given.contains(#[trigger] list[k]) by {
        assert(list.contains(list[k]));
        assert(list.to_multiset().count(list[k]) > 0);
    }
    assert forall|k: int| 0 <= k < given.len() implies list.contains(#[trigger] given[k]) by {
        assert(given.contains(given[k]));
        assert(given.to_multiset().count(given[k]) > 0);
    }
    assert(list.to_multiset().len() == list.len());
    assert(given.to_multiset().len() == given.len());
    assert(given.no_duplicates());
    given.lemma_multiset_has_no_duplicates();
    list.lemma_multiset_has_no_duplicates_conv();
    assert forall|i: int, j: int|
        #![trigger list[i], list[j]]
        0 <= i < j < list.len() implies list[i].slot != list[j].slot by {
        let p = choose|p: int| 0 <= p < given.len() && given[p] == list[i];
        let q = choose|q: int| 0 <= q < given.len() && given[q] == list[j];
        assert(given.contains(list[i]) && given.contains(list[j]));
        assert(list[i] != list[j]);
        assert(p != q);
        assert(given[p].slot != given[q].slot);
    }
}

/// Some entry of `list` was found in `slot`.
pub open spec fn lists_slot(list: Seq<Ranked>, slot: int) -> bool {
    exists|k: int| 0 <= k < list.len() && (#[trigger] list[k]).slot == slot
}

/// Entries of the two lists that were found in one slot have the same key and name, and
/// entries from different slots have different names.
pub open spec fn same_entries(a: Seq<Ranked>, b: Seq<Ranked>) -> bool {
    forall|i: int, j: int|
        #![trigger a[i], b[j]]
        0 <= i < a.len() && 0 <= j < b.len() ==> if a[i].slot == b[j].slot {
            a[i].key == b[j].key && a[i].name@ == b[j].name@
        } else {
            a[i].name@ != b[j].name@
        }
}

proof fn lemma_same_order_upto(a: Seq<Ranked>, b: Seq<Ranked>, count: int)
    requires
        sorted(a),
        sorted(b),
        distinct_slots(a),
        distinct_slots(b),
        same_entries(a, b),
        forall|k: int| 0 <= k < a.len() ==> lists_slot(b, (#[trigger] a[k]).slot as int),
        forall|k: int| 0 <= k < b.len() ==> lists_slot(a, (#[trigger] b[k]).slot as int),
        0 <= count <= a.len(),
        count <= b.len(),
    ensures
        forall|k: int| 0 <= k < count ==> (#[trigger] a[k]).slot == b[k].slot,
    decreases count,
{
    if count > 0 {
        let at = count - 1;
        lemma_same_order_upto(a, b, at);
        if a[at].slot != b[at].slot {
            let j = choose|j: int| 0 <= j < b.len() && (#[trigger] b[j]).slot == a[at].slot;
            assert(lists_slot(b, a[at].slot as int));
            if j < at {
                assert(a[j].slot == b[j].slot);
            }
            let i = choose|i: int| 0 <= i < a.len() && (#[trigger] a[i]).slot == b[at].slot;
            assert(lists_slot(a, b[at].slot as int));
            if i < at {
                assert(a[i].slot == b[i].slot);
            }
            assert(in_order(b[at], b[j]));
            assert(in_order(a[at], a[i]));
            name_order_is_antisymmetric(a[at].name@, b[at].name@);
        }
    }
}

/// There is one order for given entries: lists of the same entries list the same slots in the
/// same places.
pub proof fn order_is_unique(a: Seq<Ranked>, b: Seq<Ranked>)
    requires
        sorted(a),
        sorted(b),
        distinct_slots(a),
        distinct_slots(b),
        same_entries(a, b),
        forall|k: int| 0 <= k < a.len() ==> lists_slot(b, (#[trigger] a[k]).slot as int),
        forall|k: int| 0 <= k < b.len() ==> lists_slot(a, (#[trigger] b[k]).slot as int),
    ensures
        a.len() == b.len(),
        forall|k: int| 0 <= k < a.len() ==> (#[trigger] a[k]).slot == b[k].slot,
{
    let shared = if a.len() <= b.len() {
        a.len() as int
    } else {
        b.len() as int
    };
    lemma_same_order_upto(a, b, shared);
    if a.len() < b.len() {
        let i = choose|i: int| 0 <= i < a.len() && (#[trigger] a[i]).slot == b[shared].slot;
        assert(lists_slot(a, b[shared].slot as int));
        assert(a[i].slot == b[i].slot);
    }
    if b.len() < a.len() {
        let j = choose|j: int| 0 <= j < b.len() && (#[trigger] b[j]).slot == a[shared].slot;
        assert(lists_slot(b, a[shared].slot as int));
        assert(a[j].slot == b[j].slot);
    }
}

/// Something to be put in order: by `key`, and by the place it was found in.
#[derive(Clone, Copy, Debug, PartialEq, Eq, Structural)]
pub struct Placed {
    pub key: i64,
    pub slot: usize,
}

/// Each entry has a smaller key than every later one, or the same and an earlier place.
pub open spec fn placed_in_order(list: Seq<Placed>) -> bool {
    forall|i: int, j: int|
        #![trigger list[i], list[j]]
        0 <= i < j < list.len() ==> list[i].key < list[j].key || (list[i].key == list[j].key
            && list[i].slot < list[j].slot)
}

/// Put entries from ascending places in order, smallest key first; entries with one key keep
/// their order.
pub fn sort_placed(items: &Vec<Placed>) -> (list: Vec<Placed>)
    requires
        forall|i: int, j: int|
            #![trigger items@[i], items@[j]]
            0 <= i < j < items@.len() ==> items@[i].slot < items@[j].slot,
    ensures
        placed_in_order(list@),
        list@.to_multiset() == items@.to_multiset(),
{
    let mut list: Vec<Placed> = Vec::new();
    let mut next: usize = 0;
    proof {
        broadcast use group_to_multiset_ensures;

        assert(items@.take(0) =~= list@);
    }
    while next < items.len()
        invariant
            next <= items.len(),
            forall|i: int, j: int|
                #![trigger items@[i], items@[j]]
                0 <= i < j < items@.len() ==> items@[i].slot < items@[j].slot,
            placed_in_order(list@),
            list@.to_multiset() == items@.take(next as int).to_multiset(),
            forall|k: int|
                0 <= k < list@.len() ==> items@.take(next as int).contains(#[trigger] list@[k]),
        decreases items.len() - next,
    {
        let ghost before = list@;
        let ghost seen = items@.take(next as int);
        let entry = items[next];
        let mut at: usize = 0;
        while at < list.len() && list[at].key <= entry.key
            invariant
                at <= list.len(),
                list@ == before,
                forall|i: int| 0 <= i < at ==> (#[trigger] list@[i]).key <= entry.key,
            decreases list.len() - at,
        {
            at = at + 1;
        }
        list.insert(at, entry);
        proof {
            broadcast use group_to_multiset_ensures;

            assert(list@ =~= before.insert(at as int, entry));
            to_multiset_insert(before, at as int, entry);
            assert(items@.take(next + 1) =~= seen.push(entry));
            assert(list@.to_multiset() =~= seen.push(entry).to_multiset());
            assert forall|k: int| 0 <= k < before.len() implies (#[trigger] before[k]).slot
                < entry.slot by {
                assert(seen.contains(before[k]));
                let i = choose|i: int| 0 <= i < seen.len() && seen[i] == before[k];
                assert(items@[i].slot < items@[next as int].slot);
            }
            assert forall|i: int, j: int|
                #![trigger list@[i], list@[j]]
                0 <= i < j < list@.len() implies list@[i].key < list@[j].key || (list@[i].key
                == list@[j].key && list@[i].slot < list@[j].slot) by {
                let p = if i <= at {
                    i
                } else {
                    i - 1
                };
                let q = if j <= at {
                    j
                } else {
                    j - 1
                };
                if i != at && j != at {
                    assert(before[p].key < before[q].key || (before[p].key == before[q].key
                        && before[p].slot < before[q].slot));
                } else if i == at {
                    if at < q {
                        assert(before[at as int].key < before[q].key || before[at as int].key
                            == before[q].key);
                    }
                } else {
                    assert(before[p].slot < entry.slot);
                }
            }
            assert forall|k: int| 0 <= k < list@.len() implies items@.take(
                next + 1,
            ).contains(#[trigger] list@[k]) by {
                if k == at {
                    assert(items@.take(next + 1)[next as int] == entry);
                } else {
                    let p = if k < at {
                        k
                    } else {
                        k - 1
                    };
                    assert(seen.contains(before[p]));
                    let i = choose|i: int| 0 <= i < seen.len() && seen[i] == before[p];
                    assert(items@.take(next + 1)[i] == list@[k]);
                }
            }
        }
        next = next + 1;
    }
    assert(items@.take(next as int) =~= items@);
    list
}

} // verus!
