//! Sorting the rows of a table by code and date, and parting them by code.
use vstd::prelude::*;

use crate::history::{pick_entries, pick_features, FEATURES};
#[allow(unused_imports)]
use crate::history::{
    ascending, entries_at, features_at, picked_features_are_those_of_the_rows,
};
use crate::text::name_at_or_before;
#[allow(unused_imports)]
use crate::text::{
    name_order_is_antisymmetric, name_order_is_total, name_order_is_transitive, names_ordered,
};

verus! {

/// The OHLCV rows of all tickers, in any order.
pub struct OhlcvRows<N> {
    /// The code of each row's ticker.
    pub codes: Vec<String>,
    pub dates: Vec<i32>,
    /// Row-major OHLCV, five per row.
    pub features: Vec<N>,
}

impl<N> OhlcvRows<N> {
    /// The columns have one entry per row.
    pub open spec fn wf(&self) -> bool {
        &&& self.dates@.len() == self.codes@.len()
        &&& self.features@.len() == self.codes@.len() * FEATURES
    }
}

/// The rows of one ticker.
pub struct RowGroup {
    pub code: String,
    /// Where the rows stand in the table.
    pub rows: Vec<usize>,
}

/// The name `a` comes before `b`.
pub open spec fn name_before(a: Seq<char>, b: Seq<char>) -> bool {
    names_ordered(a, b) && a != b
}

/// Row `a` of the table comes before row `b`: by date, and by place within a date.
pub open spec fn row_before(dates: Seq<i32>, a: usize, b: usize) -> bool {
    dates[a as int] < dates[b as int] || (dates[a as int] == dates[b as int] && a < b)
}

/// The rows stand by date, those of one date as they stood in the table.
pub open spec fn rows_in_order(dates: Seq<i32>, rows: Seq<usize>) -> bool {
    forall|i: int, j: int|
        #![trigger rows[i], rows[j]]
        0 <= i < j < rows.len() ==> row_before(dates, rows[i], rows[j])
}

/// The rows are among the first `count` and are all of them of the ticker `code`.
pub open spec fn rows_of_code(
    codes: Seq<String>,
    code: Seq<char>,
    rows: Seq<usize>,
    count: nat,
) -> bool {
    forall|k: int|
        0 <= k < rows.len() ==> (#[trigger] rows[k]) < count && codes[rows[k] as int]@ == code
}

/// The row stands in one of the groups.
pub open spec fn stands_in(groups: Seq<RowGroup>, row: int) -> bool {
    exists|g: int, k: int|
        #![trigger groups[g].rows@[k]]
        0 <= g < groups.len() && 0 <= k < groups[g].rows@.len() && groups[g].rows@[k] == row
}

/// `groups` part the first `count` rows by code: the codes ascend, each group holds rows of
/// its code alone and in order, none is empty, and every row stands in one.
pub open spec fn parted(
    codes: Seq<String>,
    dates: Seq<i32>,
    count: nat,
    groups: Seq<RowGroup>,
) -> bool {
    &&& forall|g: int, h: int|
        #![trigger groups[g], groups[h]]
        0 <= g < h < groups.len() ==> name_before(groups[g].code@, groups[h].code@)
    &&& forall|g: int|
        0 <= g < groups.len() ==> {
            &&& (#[trigger] groups[g]).rows@.len() > 0
            &&& rows_in_order(dates, groups[g].rows@)
            &&& rows_of_code(codes, groups[g].code@, groups[g].rows@, count)
        }
    &&& forall|row: int| 0 <= row < count ==> #[trigger] stands_in(groups, row)
}

/// Every row stands in exactly one place of one group.
pub proof fn every_row_stands_once(
    codes: Seq<String>,
    dates: Seq<i32>,
    count: nat,
    groups: Seq<RowGroup>,
    g: int,
    k: int,
    h: int,
    l: int,
)
    requires
        parted(codes, dates, count, groups),
        0 <= g < groups.len(),
        0 <= h < groups.len(),
        0 <= k < groups[g].rows@.len(),
        0 <= l < groups[h].rows@.len(),
        groups[g].rows@[k] == groups[h].rows@[l],
    ensures
        g == h && k == l,
{
    let row = groups[g].rows@[k];
    assert(codes[row as int]@ == groups[g].code@);
    assert(codes[groups[h].rows@[l] as int]@ == groups[h].code@);
    if g < h {
        assert(name_before(groups[g].code@, groups[h].code@));
    } else if h < g {
        assert(name_before(groups[h].code@, groups[g].code@));
    } else if k < l {
        assert(row_before(dates, groups[g].rows@[k], groups[g].rows@[l]));
    } else if l < k {
        assert(row_before(dates, groups[g].rows@[l], groups[g].rows@[k]));
    }
}

impl RowGroup {
    /// Put the next row of the table in its place.
    fn place(&mut self, codes: &Vec<String>, dates: &Vec<i32>, row: usize)
        requires
            row < codes@.len() == dates@.len(),
            codes@[row as int]@ == old(self).code@,
            rows_in_order(dates@, old(self).rows@),
            rows_of_code(codes@, old(self).code@, old(self).rows@, row as nat),
        ensures
            final(self).code == old(self).code,
            rows_in_order(dates@, final(self).rows@),
            rows_of_code(codes@, old(self).code@, final(self).rows@, row as nat + 1),
            exists|at: int|
                0 <= at <= old(self).rows@.len() && final(self).rows@ == #[trigger] old(
                    self,
                ).rows@.insert(at, row),
    {
        let ghost before = self.rows@;
        let mut at: usize = self.rows.len();
        while at > 0 && dates[self.rows[at - 1]] > dates[row]
            invariant
                self.rows@ == before,
                at <= before.len(),
                row < codes@.len() == dates@.len(),
                rows_of_code(codes@, self.code@, before, row as nat),
                forall|k: int|
                    at <= k < before.len() ==> dates@[(#[trigger] before[k]) as int]
                        > dates@[row as int],
            decreases at,
        {
            at = at - 1;
        }
        self.rows.insert(at, row);
        proof {
            let after = before.insert(at as int, row);
            assert(self.rows@ == after);
            assert forall|i: int, j: int|
                #![trigger after[i], after[j]]
                0 <= i < j < after.len() implies row_before(dates@, after[i], after[j]) by {
                let a = if i < at {
                    i
                } else {
                    i - 1
                };
                let b = if j < at {
                    j
                } else {
                    j - 1
                };
                if j == at {
                    assert(after[i] == before[i]);
                    if i < at - 1 {
                        assert(row_before(dates@, before[i], before[at - 1]));
                    }
                } else if i == at {
                    assert(after[j] == before[b]);
                } else {
                    assert(row_before(dates@, before[a], before[b]));
                }
            }
            assert forall|k: int| 0 <= k < after.len() implies (#[trigger] after[k]) < row + 1
                && codes@[after[k] as int]@ == self.code@ by {
                if k < at {
                    assert(after[k] == before[k]);
                } else if k > at {
                    assert(after[k] == before[k - 1]);
                }
            }
        }
    }
}

proof fn lemma_between(groups: Seq<RowGroup>, code: Seq<char>, at: int)
    requires
        0 <= at <= groups.len(),
        forall|g: int, h: int|
            #![trigger groups[g], groups[h]]
            0 <= g < h < groups.len() ==> name_before(groups[g].code@, groups[h].code@),
        at > 0 ==> names_ordered(groups[at - 1].code@, code),
        at > 0 ==> !names_ordered(code, groups[at - 1].code@),
        forall|g: int|
            at <= g < groups.len() ==> !names_ordered((#[trigger] groups[g]).code@, code),
    ensures
        forall|g: int| 0 <= g < at ==> name_before((#[trigger] groups[g]).code@, code),
        forall|g: int|
            at <= g < groups.len() ==> name_before(code, (#[trigger] groups[g]).code@),
{
    assert forall|g: int| 0 <= g < at implies name_before((#[trigger] groups[g]).code@, code) by {
        let last = groups[at - 1].code@;
        if g < at - 1 {
            assert(name_before(groups[g].code@, last));
            name_order_is_transitive(groups[g].code@, last, code);
        } else {
            name_order_is_total(code, code);
        }
    }
    assert forall|g: int| at <= g < groups.len() implies name_before(
        code,
        (#[trigger] groups[g]).code@,
    ) by {
        name_order_is_total(code, groups[g].code@);
    }
}

proof fn lemma_group_opened(
    codes: Seq<String>,
    dates: Seq<i32>,
    row: usize,
    before: Seq<RowGroup>,
    at: int,
    group: RowGroup,
)
    requires
        parted(codes, dates, row as nat, before),
        row < codes.len(),
        0 <= at <= before.len(),
        group.code@ == codes[row as int]@,
        group.rows@ == seq![row],
        forall|g: int| 0 <= g < at ==> name_before((#[trigger] before[g]).code@, group.code@),
        forall|g: int|
            at <= g < before.len() ==> name_before(group.code@, (#[trigger] before[g]).code@),
    ensures
        parted(codes, dates, row as nat + 1, before.insert(at, group)),
{
    let after = before.insert(at, group);
    assert(after[at] == group);
    assert forall|g: int, h: int|
        #![trigger after[g], after[h]]
        0 <= g < h < after.len() implies name_before(after[g].code@, after[h].code@) by {
        let a = if g < at {
            g
        } else {
            g - 1
        };
        let b = if h < at {
            h
        } else {
            h - 1
        };
        if h == at {
            assert(after[g] == before[g]);
        } else if g == at {
            assert(after[h] == before[b]);
        } else {
            assert(name_before(before[a].code@, before[b].code@));
        }
    }
    assert forall|g: int| 0 <= g < after.len() implies {
        &&& (#[trigger] after[g]).rows@.len() > 0
        &&& rows_in_order(dates, after[g].rows@)
        &&& rows_of_code(codes, after[g].code@, after[g].rows@, row as nat + 1)
    } by {
        let a = if g < at {
            g
        } else {
            g - 1
        };
        if g != at {
            assert(after[g] == before[a]);
            assert(before[a].rows@.len() > 0);
        }
    }
    assert forall|r: int| 0 <= r < row + 1 implies #[trigger] stands_in(after, r) by {
        if r == row {
            assert(after[at].rows@[0] == r);
        } else {
            assert(stands_in(before, r));
            let (g, k) = choose|g: int, k: int|
                #![trigger before[g].rows@[k]]
                0 <= g < before.len() && 0 <= k < before[g].rows@.len() && before[g].rows@[k] == r;
            let a = if g < at {
                g
            } else {
                g + 1
            };
            assert(after[a] == before[g]);
            assert(after[a].rows@[k] == r);
        }
    }
}

proof fn lemma_group_grown(
    codes: Seq<String>,
    dates: Seq<i32>,
    row: usize,
    before: Seq<RowGroup>,
    at: int,
    place: int,
    after: Seq<RowGroup>,
)
    requires
        parted(codes, dates, row as nat, before),
        row < codes.len(),
        0 <= at < before.len(),
        0 <= place <= before[at].rows@.len(),
        after.len() == before.len(),
        forall|g: int| 0 <= g < before.len() && g != at ==> #[trigger] after[g] == before[g],
        after[at].code == before[at].code,
        after[at].rows@ == before[at].rows@.insert(place, row),
        rows_in_order(dates, after[at].rows@),
        rows_of_code(codes, after[at].code@, after[at].rows@, row as nat + 1),
    ensures
        parted(codes, dates, row as nat + 1, after),
{
    assert forall|g: int, h: int|
        #![trigger after[g], after[h]]
        0 <= g < h < after.len() implies name_before(after[g].code@, after[h].code@) by {
        assert(name_before(before[g].code@, before[h].code@));
    }
    assert forall|g: int| 0 <= g < after.len() implies {
        &&& (#[trigger] after[g]).rows@.len() > 0
        &&& rows_in_order(dates, after[g].rows@)
        &&& rows_of_code(codes, after[g].code@, after[g].rows@, row as nat + 1)
    } by {
        if g != at {
            assert(after[g] == before[g]);
            assert(before[g].rows@.len() > 0);
        }
    }
    assert forall|r: int| 0 <= r < row + 1 implies #[trigger] stands_in(after, r) by {
        if r == row {
            assert(after[at].rows@[place] == r);
        } else {
            assert(stands_in(before, r));
            let (g, k) = choose|g: int, k: int|
                #![trigger before[g].rows@[k]]
                0 <= g < before.len() && 0 <= k < before[g].rows@.len() && before[g].rows@[k] == r;
            if g != at {
                assert(after[g].rows@[k] == r);
            } else if k < place {
                assert(after[at].rows@[k] == r);
            } else {
                assert(after[at].rows@[k + 1] == r);
            }
        }
    }
}

/// Put the next row of the table into its group, opening one where its code is new.
fn place_row(groups: &mut Vec<RowGroup>, codes: &Vec<String>, dates: &Vec<i32>, row: usize)
    requires
        row < codes@.len() == dates@.len(),
        parted(codes@, dates@, row as nat, old(groups)@),
    ensures
        parted(codes@, dates@, row as nat + 1, final(groups)@),
{
    let ghost before = groups@;
    let ghost code = codes@[row as int]@;
    let mut at: usize = groups.len();
    while at > 0 && !name_at_or_before(groups[at - 1].code.as_str(), codes[row].as_str())
        invariant
            groups@ == before,
            at <= before.len(),
            row < codes@.len(),
            code == codes@[row as int]@,
            forall|g: int|
                at <= g < before.len() ==> !names_ordered((#[trigger] before[g]).code@, code),
        decreases at,
    {
        at = at - 1;
    }
    if at > 0 && name_at_or_before(codes[row].as_str(), groups[at - 1].code.as_str()) {
        proof {
            name_order_is_antisymmetric(before[at - 1].code@, code);
            assert(before[at - 1].rows@.len() > 0);
        }
        groups[at - 1].place(codes, dates, row);
        proof {
            let place = choose|place: int|
                0 <= place <= before[at - 1].rows@.len() && groups@[at - 1].rows@
                    == #[trigger] before[at - 1].rows@.insert(place, row);
            lemma_group_grown(codes@, dates@, row, before, at - 1, place, groups@);
        }
    } else {
        let mut rows: Vec<usize> = Vec::new();
        rows.push(row);
        let group = RowGroup { code: codes[row].clone(), rows };
        proof {
            assert(group.rows@ =~= seq![row]);
            lemma_between(before, code, at as int);
            lemma_group_opened(codes@, dates@, row, before, at as int, group);
        }
        groups.insert(at, group);
    }
}

/// Part the rows of a table by code, each group in date order.
pub fn part_rows(codes: &Vec<String>, dates: &Vec<i32>) -> (groups: Vec<RowGroup>)
    requires
        codes@.len() == dates@.len(),
    ensures
        parted(codes@, dates@, codes@.len(), groups@),
{
    let mut groups: Vec<RowGroup> = Vec::new();
    let mut row: usize = 0;
    while row < codes.len()
        invariant
            row <= codes@.len(),
            codes@.len() == dates@.len(),
            parted(codes@, dates@, row as nat, groups@),
        decreases codes.len() - row,
    {
        place_row(&mut groups, codes, dates, row);
        row = row + 1;
    }
    groups
}

/// One ticker's OHLCV columns, in date order.
pub struct OhlcvColumns<N> {
    pub name: String,
    pub dates: Vec<i32>,
    /// Row-major OHLCV, five per row.
    pub features: Vec<N>,
}

/// `columns` holds the rows of `table` that `group` lists.
pub open spec fn columns_of<N>(
    table: OhlcvRows<N>,
    group: RowGroup,
    columns: OhlcvColumns<N>,
) -> bool {
    &&& columns.name@ == group.code@
    &&& columns.dates@ == entries_at(table.dates@, group.rows@)
    &&& columns.features@ == features_at(table.features@, group.rows@)
}

/// `tickers` are the columns of the groups that part the rows of `table`.
pub open spec fn tickers_of<N>(
    table: OhlcvRows<N>,
    groups: Seq<RowGroup>,
    tickers: Seq<OhlcvColumns<N>>,
) -> bool {
    &&& parted(table.codes@, table.dates@, table.codes@.len(), groups)
    &&& tickers.len() == groups.len()
    &&& forall|g: int|
        0 <= g < groups.len() ==> columns_of(table, groups[g], #[trigger] tickers[g])
}

/// One ticker for each code of the table, by code, its rows by date. The table's rows may
/// stand in any order.
pub fn group_rows<N: Copy>(table: &OhlcvRows<N>) -> (tickers: Vec<OhlcvColumns<N>>)
    requires
        table.wf(),
    ensures
        exists|groups: Seq<RowGroup>| #[trigger] tickers_of(*table, groups, tickers@),
        forall|g: int|
            0 <= g < tickers@.len() ==> (#[trigger] tickers@[g]).features@.len()
                == tickers@[g].dates@.len() * FEATURES && ascending(tickers@[g].dates@),
{
    let groups = part_rows(&table.codes, &table.dates);
    let mut tickers: Vec<OhlcvColumns<N>> = Vec::new();
    let mut at: usize = 0;
    while at < groups.len()
        invariant
            at <= groups.len(),
            table.wf(),
            parted(table.codes@, table.dates@, table.codes@.len(), groups@),
            tickers@.len() == at,
            forall|g: int|
                0 <= g < at ==> columns_of(*table, groups@[g], #[trigger] tickers@[g])
                    && tickers@[g].features@.len() == tickers@[g].dates@.len() * FEATURES
                    && ascending(tickers@[g].dates@),
        decreases groups.len() - at,
    {
        let group = &groups[at];
        assert(rows_of_code(
            table.codes@,
            group.code@,
            group.rows@,
            table.codes@.len(),
        ));
        let columns = OhlcvColumns {
            name: group.code.clone(),
            dates: pick_entries(&table.dates, &group.rows),
            features: pick_features(&table.features, table.codes.len(), &group.rows),
        };
        assert forall|i: int, j: int|
            #![trigger columns.dates@[i], columns.dates@[j]]
            0 <= i < j < columns.dates@.len() implies columns.dates@[i] <= columns.dates@[j] by {
            assert(row_before(table.dates@, group.rows@[i], group.rows@[j]));
        }
        tickers.push(columns);
        at = at + 1;
    }
    assert(tickers_of(*table, groups@, tickers@));
    tickers
}

/// The tickers of a table stand in the order of their codes, no code twice.
pub proof fn tickers_stand_by_code<N>(
    table: OhlcvRows<N>,
    groups: Seq<RowGroup>,
    tickers: Seq<OhlcvColumns<N>>,
    g: int,
    h: int,
)
    requires
        tickers_of(table, groups, tickers),
        0 <= g < h < tickers.len(),
    ensures
        names_ordered(tickers[g].name@, tickers[h].name@),
        tickers[g].name@ != tickers[h].name@,
{
    assert(name_before(groups[g].code@, groups[h].code@));
    assert(columns_of(table, groups[g], tickers[g]));
    assert(columns_of(table, groups[h], tickers[h]));
}

/// Every entry of a ticker is a row of the table under the ticker's code, with its own date and
/// features, and the entries stand by date.
pub proof fn entries_are_rows_by_date<N>(
    table: OhlcvRows<N>,
    groups: Seq<RowGroup>,
    tickers: Seq<OhlcvColumns<N>>,
    g: int,
    k: int,
    f: int,
)
    requires
        table.wf(),
        tickers_of(table, groups, tickers),
        0 <= g < tickers.len(),
        0 <= k < tickers[g].dates@.len(),
        0 <= f < 5,
    ensures
        tickers[g].features@.len() == tickers[g].dates@.len() * 5,
        exists|row: int|
            {
                &&& 0 <= row < table.codes@.len()
                &&& (#[trigger] table.codes@[row])@ == tickers[g].name@
                &&& table.dates@[row] == tickers[g].dates@[k]
                &&& table.features@[row * 5 + f] == tickers[g].features@[k * 5 + f]
            },
        forall|later: int|
            k < later < tickers[g].dates@.len() ==> tickers[g].dates@[k]
                <= #[trigger] tickers[g].dates@[later],
{
    assert(columns_of(table, groups[g], tickers[g]));
    let rows = groups[g].rows@;
    assert(rows_of_code(table.codes@, groups[g].code@, rows, table.codes@.len()));
    assert(rows_in_order(table.dates@, rows));
    assert forall|i: int| 0 <= i < rows.len() implies (#[trigger] rows[i] + 1) * 5
        <= table.features@.len() by {
        assert(rows[i] < table.codes@.len());
    }
    picked_features_are_those_of_the_rows(table.features@, rows, k, f);
    let row = rows[k] as int;
    assert(table.codes@[row]@ == tickers[g].name@);
    assert forall|later: int| k < later < tickers[g].dates@.len() implies tickers[g].dates@[k]
        <= #[trigger] tickers[g].dates@[later] by {
        assert(row_before(table.dates@, rows[k], rows[later]));
    }
}

} // verus!
