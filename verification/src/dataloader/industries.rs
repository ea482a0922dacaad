//! Industry codes: distinct industries by their place in dictionary order.
use vstd::prelude::*;

use crate::text::name_at_or_before;
#[allow(unused_imports)]
use crate::text::{name_order_is_total, name_order_is_transitive, names_ordered};

verus! {

/// The industry index of one ticker name.
pub struct IndustryCode {
    pub name: String,
    pub code: usize,
}

/// The texts of a column.
pub open spec fn texts(column: Seq<String>) -> Seq<Seq<char>> {
    column.map_values(|text: String| text@)
}

/// `distinct` holds each industry of the column once, in dictionary order, and nothing else.
pub open spec fn distinct_industries(
    industries: Seq<Option<String>>,
    distinct: Seq<Seq<char>>,
) -> bool {
    &&& distinct.no_duplicates()
    &&& forall|i: int, j: int|
        #![trigger distinct[i], distinct[j]]
        0 <= i < j < distinct.len() ==> names_ordered(distinct[i], distinct[j])
    &&& forall|i: int| 0 <= i < distinct.len() ==> occurs(industries, #[trigger] distinct[i])
    &&& forall|row: int|
        0 <= row < industries.len() && industries[row] is Some ==> distinct.contains(
            (#[trigger] industries[row])->0@,
        )
}

/// `industry` stands in the column.
pub open spec fn occurs(industries: Seq<Option<String>>, industry: Seq<char>) -> bool {
    exists|row: int|
        0 <= row < industries.len() && (#[trigger] industries[row]) is Some
            && industries[row]->0@ == industry
}

/// The code that the first `count` rows give `name`: the place of the industry in the last
/// row that has both.
pub open spec fn code_in(
    names: Seq<Option<String>>,
    industries: Seq<Option<String>>,
    distinct: Seq<Seq<char>>,
    count: nat,
    name: Seq<char>,
) -> Option<int>
    decreases count,
{
    if count == 0 {
        None
    } else if names[count - 1] is Some && names[count - 1]->0@ == name
        && industries[count - 1] is Some {
        Some(distinct.index_of(industries[count - 1]->0@))
    } else {
        code_in(names, industries, distinct, (count - 1) as nat, name)
    }
}

/// No name has two codes.
pub open spec fn distinct_codes(codes: Seq<IndustryCode>) -> bool {
    forall|i: int, j: int|
        #![trigger codes[i], codes[j]]
        0 <= i < j < codes.len() ==> codes[i].name@ != codes[j].name@
}

/// The entry at `at` is that of `name`.
pub open spec fn codes_at(codes: Seq<IndustryCode>, name: Seq<char>, at: int) -> bool {
    0 <= at < codes.len() && codes[at].name@ == name
}

/// The code of `name`, if it has one.
pub open spec fn code_of(codes: Seq<IndustryCode>, name: Seq<char>) -> Option<int> {
    if exists|at: int| codes_at(codes, name, at) {
        Some(codes[choose|at: int| codes_at(codes, name, at)].code as int)
    } else {
        None
    }
}

/// Where the entry of `name` stands, the number of entries if there is none.
fn find_code(codes: &Vec<IndustryCode>, name: &String) -> (at: usize)
    requires
        distinct_codes(codes@),
    ensures
        at <= codes.len(),
        at < codes.len() ==> codes@[at as int].name@ == name@ && code_of(codes@, name@) == Some(
            codes@[at as int].code as int,
        ),
        at == codes.len() ==> code_of(codes@, name@) is None,
{
    let mut at: usize = 0;
    while at < codes.len()
        invariant
            at <= codes.len(),
            distinct_codes(codes@),
            forall|i: int| 0 <= i < at ==> (#[trigger] codes@[i]).name@ != name@,
        decreases codes.len() - at,
    {
        if codes[at].name == *name {
            assert(codes_at(codes@, name@, at as int));
            return at;
        }
        at = at + 1;
    }
    at
}

/// The code of `name`, `unknown` if it has none.
pub fn code_or(codes: &Vec<IndustryCode>, name: &String, unknown: usize) -> (code: usize)
    requires
        distinct_codes(codes@),
    ensures
        code == (match code_of(codes@, name@) {
            Some(found) => found,
            None => unknown as int,
        }),
{
    let at = find_code(codes, name);
    if at < codes.len() {
        codes[at].code
    } else {
        unknown
    }
}

/// Inserting where everything before comes no later and everything after no earlier keeps a
/// list ordered and free of duplicates.
proof fn lemma_inserted(list: Seq<Seq<char>>, at: int, entry: Seq<char>)
    requires
        0 <= at <= list.len(),
        list.no_duplicates(),
        forall|i: int, j: int|
            #![trigger list[i], list[j]]
            0 <= i < j < list.len() ==> names_ordered(list[i], list[j]),
        forall|i: int|
            0 <= i < at ==> names_ordered(#[trigger] list[i], entry) && list[i] != entry,
        forall|i: int|
            at <= i < list.len() ==> names_ordered(entry, #[trigger] list[i]) && list[i] != entry,
    ensures
        ({
            let longer = list.insert(at, entry);
            &&& longer.no_duplicates()
            &&& forall|i: int, j: int|
                #![trigger longer[i], longer[j]]
                0 <= i < j < longer.len() ==> names_ordered(longer[i], longer[j])
            &&& longer.contains(entry)
            &&& forall|i: int| 0 <= i < list.len() ==> longer.contains(#[trigger] list[i])
        }),
{
    let longer = list.insert(at, entry);
    assert(longer[at] == entry);
    assert forall|i: int| 0 <= i < list.len() implies longer.contains(#[trigger] list[i]) by {
        if i < at {
            assert(longer[i] == list[i]);
        } else {
            assert(longer[i + 1] == list[i]);
        }
    }
    assert forall|i: int, j: int|
        #![trigger longer[i], longer[j]]
        0 <= i < j < longer.len() implies names_ordered(longer[i], longer[j]) && longer[i]
        != longer[j] by {
        let p = if i <= at {
            i
        } else {
            i - 1
        };
        let q = if j <= at {
            j
        } else {
            j - 1
        };
        if i != at && j != at {
            assert(list[p] != list[q]);
            assert(names_ordered(list[p], list[q]));
        } else if i == at {
            assert(names_ordered(entry, list[q]));
        } else {
            assert(names_ordered(list[p], entry));
        }
    }
}

/// Each industry of the column once, in dictionary order.
fn sorted_distinct(industries: &Vec<Option<String>>) -> (distinct: Vec<String>)
    ensures
        distinct_industries(industries@, texts(distinct@)),
{
    let mut distinct: Vec<String> = Vec::new();
    let mut row: usize = 0;
    assert(texts(distinct@) =~= Seq::<Seq<char>>::empty());
    while row < industries.len()
        invariant
            row <= industries.len(),
            distinct_industries(industries@.take(row as int), texts(distinct@)),
        decreases industries.len() - row,
    {
        let ghost before = texts(distinct@);
        let ghost seen = industries@.take(row as int);
        let ghost next = industries@.take(row + 1);
        match &industries[row] {
            None => {},
            Some(industry) => {
                let mut at: usize = 0;
                while at < distinct.len() && name_at_or_before(
                    distinct[at].as_str(),
                    industry.as_str(),
                ) && distinct[at] != *industry
                    invariant
                        at <= distinct.len(),
                        texts(distinct@) == before,
                        forall|i: int|
                            0 <= i < at ==> names_ordered(#[trigger] before[i], industry@)
                                && before[i] != industry@,
                    decreases distinct.len() - at,
                {
                    assert(before[at as int] == distinct@[at as int]@);
                    at = at + 1;
                }
                if at < distinct.len() {
                    assert(before[at as int] == distinct@[at as int]@);
                }
                if at < distinct.len() && distinct[at] == *industry {
                    assert(before.contains(industry@));
                } else {
                    distinct.insert(at, industry.clone());
                    proof {
                        if at < before.len() {
                            name_order_is_total(before[at as int], industry@);
                        }
                        assert forall|i: int| at <= i < before.len() implies names_ordered(
                            industry@,
                            #[trigger] before[i],
                        ) && before[i] != industry@ by {
                            if i > at {
                                assert(names_ordered(before[at as int], before[i]));
                                name_order_is_transitive(industry@, before[at as int], before[i]);
                            }
                        }
                        lemma_inserted(before, at as int, industry@);
                        assert(texts(distinct@) =~= before.insert(at as int, industry@));
                    }
                }
            },
        }
        proof {
            let after = texts(distinct@);
            assert(forall|i: int| 0 <= i < before.len() ==> after.contains(#[trigger] before[i]));
            assert forall|r: int| 0 <= r < next.len() && next[r] is Some implies after.contains(
                (#[trigger] next[r])->0@,
            ) by {
                if r < row {
                    assert(seen[r] == next[r]);
                    let k = choose|k: int| 0 <= k < before.len() && before[k] == next[r]->0@;
                    assert(before.contains(seen[r]->0@));
                    assert(after.contains(before[k]));
                }
            }
            assert forall|i: int| 0 <= i < after.len() implies occurs(next, #[trigger] after[i]) by {
                if before.contains(after[i]) {
                    let k = choose|k: int| 0 <= k < before.len() && before[k] == after[i];
                    assert(occurs(seen, before[k]));
                    let r = choose|r: int|
                        0 <= r < seen.len() && (#[trigger] seen[r]) is Some && seen[r]->0@
                            == before[k];
                    assert(next[r] == seen[r]);
                } else {
                    assert(next[row as int] is Some && next[row as int]->0@ == after[i]);
                }
            }
        }
        row = row + 1;
    }
    assert(industries@.take(row as int) =~= industries@);
    distinct
}

/// Where `text` stands in a list that holds it.
fn position(list: &Vec<String>, text: &String) -> (at: usize)
    requires
        texts(list@).no_duplicates(),
        texts(list@).contains(text@),
    ensures
        at < list.len(),
        at == texts(list@).index_of(text@),
{
    let mut at: usize = 0;
    while at < list.len()
        invariant
            at <= list.len(),
            texts(list@).no_duplicates(),
            texts(list@).contains(text@),
            forall|i: int| 0 <= i < at ==> (#[trigger] list@[i])@ != text@,
        decreases list.len() - at,
    {
        if list[at] == *text {
            assert(texts(list@)[at as int] == text@);
            assert(texts(list@)[texts(list@).index_of(text@)] == text@);
            return at;
        }
        at = at + 1;
    }
    proof {
        let i = choose|i: int| 0 <= i < texts(list@).len() && texts(list@)[i] == text@;
        assert(list@[i]@ == text@);
    }
    at
}

proof fn lemma_code_of(codes: Seq<IndustryCode>, at: int)
    requires
        distinct_codes(codes),
        0 <= at < codes.len(),
    ensures
        code_of(codes, codes[at].name@) == Some(codes[at].code as int),
{
    assert(codes_at(codes, codes[at].name@, at));
    let found = choose|i: int| codes_at(codes, codes[at].name@, i);
    assert(codes_at(codes, codes[at].name@, found));
    if found < at {
        assert(codes[found].name@ != codes[at].name@);
    } else if at < found {
        assert(codes[at].name@ != codes[found].name@);
    }
}

/// Lists with the same entries, but for the one of `name`, agree on every other name.
proof fn lemma_other_codes(
    codes: Seq<IndustryCode>,
    next: Seq<IndustryCode>,
    at: int,
    name: Seq<char>,
    other: Seq<char>,
)
    requires
        distinct_codes(codes),
        distinct_codes(next),
        codes.len() <= next.len() <= codes.len() + 1,
        0 <= at < next.len(),
        next[at].name@ == name,
        at < codes.len() ==> codes[at].name@ == name,
        next.len() > codes.len() ==> at == codes.len(),
        forall|i: int| 0 <= i < codes.len() && i != at ==> #[trigger] next[i] == codes[i],
        other != name,
    ensures
        code_of(next, other) == code_of(codes, other),
{
    if exists|i: int| codes_at(codes, other, i) {
        let i = choose|i: int| codes_at(codes, other, i);
        assert(next[i] == codes[i]);
        lemma_code_of(next, i);
    } else if exists|i: int| codes_at(next, other, i) {
        let i = choose|i: int| codes_at(next, other, i);
        assert(i != at);
        assert(codes_at(codes, other, i));
    }
}

/// `codes` are the codes that the two columns give to the names in them.
pub open spec fn codes_are(
    names: Seq<Option<String>>,
    industries: Seq<Option<String>>,
    distinct: Seq<Seq<char>>,
    codes: Seq<IndustryCode>,
) -> bool {
    &&& distinct_codes(codes)
    &&& forall|name: Seq<char>| #[trigger]
        code_of(codes, name) == code_in(names, industries, distinct, names.len(), name)
    &&& forall|i: int| 0 <= i < codes.len() ==> (#[trigger] codes[i]).code < distinct.len()
}

/// The codes of two columns, and the one-hot width they need.
pub struct IndustryIndex {
    pub codes: Vec<IndustryCode>,
    pub n_industries: usize,
}

/// Build the `ticker name -> industry index` list from a name and an industry column.
/// Distinct industries are indexed in sorted order for a stable encoding, and the width has
/// one extra bucket for tickers with an unknown industry.
pub fn index_industries(names: &Vec<Option<String>>, industries: &Vec<Option<String>>) -> (index:
    IndustryIndex)
    requires
        names@.len() == industries@.len(),
        industries@.len() < usize::MAX,
    ensures
        exists|distinct: Seq<Seq<char>>|
            {
                &&& #[trigger] distinct_industries(industries@, distinct)
                &&& codes_are(names@, industries@, distinct, index.codes@)
                &&& index.n_industries == distinct.len() + 1
            },
{
    let distinct = sorted_distinct(industries);
    let ghost listed = texts(distinct@);
    let mut codes: Vec<IndustryCode> = Vec::new();
    let mut row: usize = 0;
    while row < names.len()
        invariant
            row <= names.len(),
            names@.len() == industries@.len(),
            listed == texts(distinct@),
            distinct_industries(industries@, listed),
            distinct_codes(codes@),
            forall|name: Seq<char>| #[trigger]
                code_of(codes@, name) == code_in(names@, industries@, listed, row as nat, name),
            forall|i: int| 0 <= i < codes.len() ==> (#[trigger] codes@[i]).code < listed.len(),
        decreases names.len() - row,
    {
        let ghost before = codes@;
        if let (Some(name), Some(industry)) = (&names[row], &industries[row]) {
            assert(listed.contains(industries@[row as int]->0@));
            let code = position(&distinct, industry);
            let at = find_code(&codes, name);
            if at < codes.len() {
                codes[at].code = code;
            } else {
                proof {
                    assert forall|i: int| 0 <= i < before.len() implies (
                    #[trigger] before[i]).name@ != name@ by {
                        lemma_code_of(before, i);
                    }
                }
                codes.push(IndustryCode { name: name.clone(), code });
            }
            proof {
                let next = codes@;
                assert(next[at as int].name@ == name@);
                assert(forall|i: int|
                    0 <= i < before.len() && i != at ==> #[trigger] next[i] == before[i]);
                assert(distinct_codes(next));
                lemma_code_of(next, at as int);
                assert forall|other: Seq<char>| #[trigger]
                    code_of(next, other) == code_in(
                        names@,
                        industries@,
                        listed,
                        (row + 1) as nat,
                        other,
                    ) by {
                    if other != name@ {
                        lemma_other_codes(before, next, at as int, name@, other);
                    }
                }
            }
        }
        row = row + 1;
    }
    proof {
        lemma_distinct_bounded(industries@, listed);
    }
    IndustryIndex { codes, n_industries: distinct.len() + 1 }
}

/// There are no more distinct industries than rows.
proof fn lemma_distinct_bounded(industries: Seq<Option<String>>, distinct: Seq<Seq<char>>)
    requires
        distinct_industries(industries, distinct),
    ensures
        distinct.len() <= industries.len(),
{
    let rows = Seq::new(
        distinct.len(),
        |i: int|
            choose|row: int|
                0 <= row < industries.len() && (#[trigger] industries[row]) is Some
                    && industries[row]->0@ == distinct[i],
    );
    assert forall|i: int| 0 <= i < distinct.len() implies 0 <= #[trigger] rows[i]
        < industries.len() && industries[rows[i]]->0@ == distinct[i] by {
        assert(occurs(industries, distinct[i]));
    }
    assert forall|i: int, j: int| 0 <= i < j < rows.len() implies rows[i] != rows[j] by {
        assert(distinct[i] != distinct[j]);
    }
    assert(rows.no_duplicates());
    let all = Set::new(|row: int| 0 <= row < industries.len());
    vstd::set_lib::lemma_int_range(0, industries.len() as int);
    assert(all =~= vstd::set_lib::set_int_range(0, industries.len() as int));
    assert(rows.to_set().subset_of(all));
    rows.unique_seq_to_set();
    vstd::set_lib::lemma_len_subset(rows.to_set(), all);
}

} // verus!
