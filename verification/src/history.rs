//! One ticker's daily history in flat buffers, and the windows that histories hold.
use vstd::prelude::*;
use vstd::slice::{slice_subrange, slice_to_vec};

verus! {

/// Features per row.
pub const FEATURES: usize = 5;

/// One ticker's history flattened into plain buffers for fast window extraction. Rows
/// ascend by date; every vector shares that order, so `dates[i]`, `labels[i]`, and
/// `features[i*5 .. i*5+5]` are the same trading day.
pub struct History<T> {
    pub name: String,
    /// Trading dates as day numbers, ascending.
    pub dates: Vec<i32>,
    /// Row-major features, five per row.
    pub features: Vec<T>,
    /// One action label per row.
    pub labels: Vec<u8>,
}

/// A history as plain sequences.
#[verifier::ext_equal]
pub struct HistoryView<T> {
    pub name: Seq<char>,
    pub dates: Seq<i32>,
    pub features: Seq<T>,
    pub labels: Seq<u8>,
}

impl<T> View for History<T> {
    type V = HistoryView<T>;

    open spec fn view(&self) -> HistoryView<T> {
        HistoryView {
            name: self.name@,
            dates: self.dates@,
            features: self.features@,
            labels: self.labels@,
        }
    }
}

/// The dates ascend.
pub open spec fn ascending(dates: Seq<i32>) -> bool {
    forall|i: int, j: int|
        #![trigger dates[i], dates[j]]
        0 <= i < j < dates.len() ==> dates[i] <= dates[j]
}

impl<T> HistoryView<T> {
    /// The buffers have one entry per row, and the dates ascend.
    pub open spec fn wf(self) -> bool {
        &&& self.features.len() == self.dates.len() * FEATURES
        &&& self.labels.len() == self.dates.len()
        &&& ascending(self.dates)
    }

    /// Number of rows.
    pub open spec fn rows(self) -> nat {
        self.dates.len()
    }

    /// The rows before `at`.
    pub open spec fn head(self, at: int) -> HistoryView<T> {
        HistoryView {
            name: self.name,
            dates: self.dates.take(at),
            features: self.features.take(at * FEATURES),
            labels: self.labels.take(at),
        }
    }

    /// The rows from `at` on.
    pub open spec fn tail(self, at: int) -> HistoryView<T> {
        HistoryView {
            name: self.name,
            dates: self.dates.skip(at),
            features: self.features.skip(at * FEATURES),
            labels: self.labels.skip(at),
        }
    }

    /// The features of the `steps` rows from `start` on.
    pub open spec fn window(self, start: int, steps: int) -> Seq<T> {
        self.features.subrange(start * FEATURES, (start + steps) * FEATURES)
    }
}

/// How many of the dates lie before `cutoff`.
pub open spec fn rows_before(dates: Seq<i32>, cutoff: i32) -> nat
    decreases dates.len(),
{
    if dates.len() == 0 {
        0
    } else {
        rows_before(dates.drop_last(), cutoff) + if dates.last() < cutoff {
            1nat
        } else {
            0nat
        }
    }
}

/// A cut with everything before it earlier than `cutoff` and nothing after it is at the
/// number of dates before `cutoff`.
proof fn lemma_cut(dates: Seq<i32>, cutoff: i32, at: int)
    requires
        0 <= at <= dates.len(),
        forall|i: int| 0 <= i < at ==> #[trigger] dates[i] < cutoff,
        forall|i: int| at <= i < dates.len() ==> #[trigger] dates[i] >= cutoff,
    ensures
        rows_before(dates, cutoff) == at,
    decreases dates.len(),
{
    if dates.len() > 0 {
        let shorter = dates.drop_last();
        if at == dates.len() {
            lemma_cut(shorter, cutoff, at - 1);
        } else {
            assert(dates[dates.len() - 1] >= cutoff);
            lemma_cut(shorter, cutoff, at);
        }
    }
}

/// Ascending dates have those before `cutoff` in front.
pub proof fn rows_before_is_the_cut(dates: Seq<i32>, cutoff: i32)
    requires
        ascending(dates),
    ensures
        rows_before(dates, cutoff) <= dates.len(),
        forall|i: int|
            0 <= i < rows_before(dates, cutoff) ==> #[trigger] dates[i] < cutoff,
        forall|i: int|
            rows_before(dates, cutoff) <= i < dates.len() ==> #[trigger] dates[i] >= cutoff,
    decreases dates.len(),
{
    if dates.len() > 0 {
        let shorter = dates.drop_last();
        rows_before_is_the_cut(shorter, cutoff);
        assert forall|i: int| 0 <= i < rows_before(dates, cutoff) implies #[trigger] dates[i]
            < cutoff by {
            if i < shorter.len() {
                assert(dates[i] == shorter[i]);
                assert(dates[i] <= dates[dates.len() - 1]);
            }
        }
        assert forall|i: int|
            rows_before(dates, cutoff) <= i < dates.len() implies #[trigger] dates[i] >= cutoff by {
            if i < shorter.len() {
                assert(dates[i] == shorter[i]);
            }
        }
    }
}

/// Number of ascending dates before `cutoff`, by bisection.
pub fn count_before(dates: &Vec<i32>, cutoff: i32) -> (count: usize)
    requires
        ascending(dates@),
    ensures
        count == rows_before(dates@, cutoff),
        count <= dates.len(),
{
    let mut low: usize = 0;
    let mut high: usize = dates.len();
    while low < high
        invariant
            low <= high <= dates.len(),
            ascending(dates@),
            forall|i: int| 0 <= i < low ==> #[trigger] dates@[i] < cutoff,
            forall|i: int| high <= i < dates.len() ==> #[trigger] dates@[i] >= cutoff,
        decreases high - low,
    {
        let middle: usize = low + (high - low) / 2;
        if dates[middle] < cutoff {
            low = middle + 1;
        } else {
            high = middle;
        }
    }
    proof {
        lemma_cut(dates@, cutoff, low as int);
    }
    low
}

/// The later of `day` and the last of `dates`, where there are any.
pub open spec fn later_of(day: Option<i32>, dates: Seq<i32>) -> Option<i32> {
    if dates.len() == 0 {
        day
    } else {
        match day {
            Some(earlier) if dates.last() <= earlier => Some(earlier),
            _ => Some(dates.last()),
        }
    }
}

/// The latest date that any of the columns ends on.
pub open spec fn latest(columns: Seq<Seq<i32>>) -> Option<i32>
    decreases columns.len(),
{
    if columns.len() == 0 {
        None
    } else {
        later_of(latest(columns.drop_last()), columns.last())
    }
}

/// The later of `day` and the last of `dates`.
pub fn later(day: Option<i32>, dates: &Vec<i32>) -> (latest: Option<i32>)
    ensures
        latest == later_of(day, dates@),
{
    if dates.len() == 0 {
        return day;
    }
    // Dates ascend, so the last is the latest.
    let last: i32 = dates[dates.len() - 1];
    match day {
        Some(earlier) => if last <= earlier {
            Some(earlier)
        } else {
            Some(last)
        },
        None => Some(last),
    }
}

/// Of ascending date columns, the latest date is missing only if there is no date at all;
/// otherwise it is one of the dates, and none is later.
pub proof fn latest_is_the_maximum(columns: Seq<Seq<i32>>)
    requires
        forall|c: int| 0 <= c < columns.len() ==> ascending(#[trigger] columns[c]),
    ensures
        latest(columns) is None ==> forall|c: int|
            0 <= c < columns.len() ==> (#[trigger] columns[c]).len() == 0,
        latest(columns) matches Some(day) ==> {
            &&& exists|c: int, r: int|
                0 <= c < columns.len() && 0 <= r < columns[c].len() && #[trigger] columns[c][r]
                    == day
            &&& forall|c: int, r: int|
                0 <= c < columns.len() && 0 <= r < columns[c].len() ==> #[trigger] columns[c][r]
                    <= day
        },
    decreases columns.len(),
{
    if columns.len() > 0 {
        let shorter = columns.drop_last();
        let last = columns[columns.len() - 1];
        assert forall|c: int| 0 <= c < shorter.len() implies ascending(#[trigger] shorter[c]) by {
            assert(ascending(columns[c]));
        }
        latest_is_the_maximum(shorter);
        assert(ascending(last));
        match latest(columns) {
            None => {
                assert forall|c: int| 0 <= c < columns.len() implies (
                #[trigger] columns[c]).len() == 0 by {
                    if c < shorter.len() {
                        assert(shorter[c].len() == 0);
                    }
                }
            },
            Some(day) => {
                assert forall|c: int, r: int|
                    0 <= c < columns.len() && 0 <= r < columns[c].len() implies
                    #[trigger] columns[c][r] <= day by {
                    if c < shorter.len() {
                        assert(shorter[c] == columns[c]);
                        if latest(shorter) is None {
                            assert(shorter[c].len() == 0);
                        } else {
                            assert(shorter[c][r] <= latest(shorter)->0);
                        }
                    } else {
                        assert(last[r] <= last[last.len() - 1]);
                    }
                }
                if latest(shorter) == Some(day) {
                    let (c, r) = choose|c: int, r: int|
                        0 <= c < shorter.len() && 0 <= r < shorter[c].len()
                            && #[trigger] shorter[c][r] == day;
                    assert(columns[c][r] == day);
                } else {
                    assert(columns[columns.len() - 1][last.len() - 1] == day);
                }
            },
        }
    }
}

/// Copy the entries from `from` to `to`.
pub fn copy_range<T: Copy>(values: &Vec<T>, from: usize, to: usize) -> (copy: Vec<T>)
    requires
        from <= to <= values.len(),
    ensures
        copy@ == values@.subrange(from as int, to as int),
{
    slice_to_vec(slice_subrange(values.as_slice(), from, to))
}

/// Copy every entry.
pub fn copy_all<T: Copy>(values: &Vec<T>) -> (copy: Vec<T>)
    ensures
        copy@ == values@,
{
    let copy = copy_range(values, 0, values.len());
    assert(copy@ =~= values@);
    copy
}

/// The entries of `values` at `rows`, in that order.
pub open spec fn entries_at<T>(values: Seq<T>, rows: Seq<usize>) -> Seq<T> {
    Seq::new(rows.len(), |i: int| values[rows[i] as int])
}

/// The features of the rows at `rows`, in that order, row-major.
pub open spec fn features_at<T>(features: Seq<T>, rows: Seq<usize>) -> Seq<T>
    decreases rows.len(),
{
    if rows.len() == 0 {
        Seq::empty()
    } else {
        features_at(features, rows.drop_last()) + features.subrange(
            rows.last() * FEATURES,
            rows.last() * FEATURES + FEATURES,
        )
    }
}

/// Pick the entries at `rows`.
pub fn pick_entries<T: Copy>(values: &Vec<T>, rows: &Vec<usize>) -> (picked: Vec<T>)
    requires
        forall|i: int| 0 <= i < rows@.len() ==> (#[trigger] rows@[i]) < values@.len(),
    ensures
        picked@ == entries_at(values@, rows@),
{
    let mut picked: Vec<T> = Vec::new();
    let mut at: usize = 0;
    while at < rows.len()
        invariant
            at <= rows.len(),
            forall|i: int| 0 <= i < rows@.len() ==> (#[trigger] rows@[i]) < values@.len(),
            picked@ =~= entries_at(values@, rows@).take(at as int),
        decreases rows.len() - at,
    {
        picked.push(values[rows[at]]);
        at = at + 1;
    }
    assert(picked@ =~= entries_at(values@, rows@));
    picked
}

/// Pick the features of `rows` from those of `count` rows.
pub fn pick_features<T: Copy>(features: &Vec<T>, count: usize, rows: &Vec<usize>) -> (picked: Vec<
    T,
>)
    requires
        features@.len() == count * FEATURES,
        forall|i: int| 0 <= i < rows@.len() ==> (#[trigger] rows@[i]) < count,
    ensures
        picked@ == features_at(features@, rows@),
        picked@.len() == rows@.len() * FEATURES,
{
    let length = features.len();
    let mut picked: Vec<T> = Vec::new();
    let mut at: usize = 0;
    while at < rows.len()
        invariant
            at <= rows.len(),
            length == features@.len() == count * FEATURES,
            forall|i: int| 0 <= i < rows@.len() ==> (#[trigger] rows@[i]) < count,
            picked@ == features_at(features@, rows@.take(at as int)),
            picked@.len() == at * FEATURES,
        decreases rows.len() - at,
    {
        let row = rows[at];
        assert(rows@.take(at + 1).drop_last() =~= rows@.take(at as int));
        assert(row * FEATURES + FEATURES <= length) by (nonlinear_arith)
            requires
                row + 1 <= count,
                length == count * FEATURES,
        ;
        let mut part = copy_range(features, row * FEATURES, row * FEATURES + FEATURES);
        picked.append(&mut part);
        at = at + 1;
        assert(picked@.len() == at * FEATURES) by (nonlinear_arith)
            requires
                picked@.len() == (at - 1) * FEATURES + FEATURES,
        ;
    }
    assert(rows@.take(at as int) =~= rows@);
    picked
}

impl<T: Copy> History<T> {
    /// Number of rows.
    pub fn rows(&self) -> (rows: usize)
        ensures
            rows == self@.rows(),
    {
        self.dates.len()
    }

    /// Split into rows `[0, at)` and `[at, rows)`, keeping every buffer aligned.
    pub fn split_at(&self, at: usize) -> (halves: (History<T>, History<T>))
        requires
            self@.wf(),
            at <= self@.rows(),
        ensures
            halves.0@ == self@.head(at as int),
            halves.1@ == self@.tail(at as int),
    {
        let rows = self.dates.len();
        let width = self.features.len();
        assert(at * FEATURES <= rows * FEATURES) by (nonlinear_arith)
            requires
                at <= rows,
        ;
        let cut: usize = at * FEATURES;
        let left = History {
            name: self.name.clone(),
            dates: copy_range(&self.dates, 0, at),
            features: copy_range(&self.features, 0, cut),
            labels: copy_range(&self.labels, 0, at),
        };
        let right = History {
            name: self.name.clone(),
            dates: copy_range(&self.dates, at, rows),
            features: copy_range(&self.features, cut, width),
            labels: copy_range(&self.labels, at, rows),
        };
        assert(left@ =~= self@.head(at as int));
        assert(right@ =~= self@.tail(at as int));
        (left, right)
    }

    /// A copy of the whole history.
    pub fn duplicate(&self) -> (copy: History<T>)
        ensures
            copy@ == self@,
    {
        History {
            name: self.name.clone(),
            dates: copy_all(&self.dates),
            features: copy_all(&self.features),
            labels: copy_all(&self.labels),
        }
    }

    /// Copy the features of the `steps` rows from `start` on.
    pub fn window(&self, start: usize, steps: usize) -> (features: Vec<T>)
        requires
            self@.wf(),
            start + steps <= self@.rows(),
        ensures
            features@ == self@.window(start as int, steps as int),
            features@.len() == steps * FEATURES,
    {
        let rows = self.dates.len();
        let width = self.features.len();
        proof {
            assert((start + steps) * FEATURES <= rows * FEATURES) by (nonlinear_arith)
                requires
                    start + steps <= rows,
            ;
            assert(width == rows * FEATURES);
            assert(start * FEATURES <= (start + steps) * FEATURES) by (nonlinear_arith);
            assert((start + steps) * FEATURES == start * FEATURES + steps * FEATURES)
                by (nonlinear_arith);
        }
        copy_range(&self.features, start * FEATURES, (start + steps) * FEATURES)
    }
}

/// Splitting keeps every row: the two halves in a row are the history again.
pub proof fn split_halves_rejoin<T>(history: HistoryView<T>, at: int)
    requires
        history.wf(),
        0 <= at <= history.rows(),
    ensures
        history.head(at).wf(),
        history.tail(at).wf(),
        history.head(at).name == history.name,
        history.tail(at).name == history.name,
        history.head(at).dates + history.tail(at).dates == history.dates,
        history.head(at).features + history.tail(at).features == history.features,
        history.head(at).labels + history.tail(at).labels == history.labels,
{
    assert(0 <= at * FEATURES <= history.dates.len() * FEATURES) by (nonlinear_arith)
        requires
            0 <= at <= history.dates.len(),
    ;
    assert((history.dates.len() - at) * FEATURES == history.dates.len() * FEATURES - at * FEATURES)
        by (nonlinear_arith);
    let head = history.head(at);
    let tail = history.tail(at);
    assert(head.dates + tail.dates =~= history.dates);
    assert(head.features + tail.features =~= history.features);
    assert(head.labels + tail.labels =~= history.labels);
    assert forall|i: int, j: int|
        #![trigger tail.dates[i], tail.dates[j]]
        0 <= i < j < tail.dates.len() implies tail.dates[i] <= tail.dates[j] by {
        assert(history.dates[at + i] <= history.dates[at + j]);
    }
    assert forall|i: int, j: int|
        #![trigger head.dates[i], head.dates[j]]
        0 <= i < j < head.dates.len() implies head.dates[i] <= head.dates[j] by {
        assert(history.dates[i] <= history.dates[j]);
    }
}

/// The histories as plain sequences.
pub open spec fn history_views<T>(histories: Seq<History<T>>) -> Seq<HistoryView<T>> {
    histories.map_values(|history: History<T>| history@)
}

/// The row counts of the histories.
pub open spec fn history_rows<T>(histories: Seq<HistoryView<T>>) -> Seq<usize> {
    histories.map_values(|history: HistoryView<T>| history.rows() as usize)
}

/// The row counts of the histories.
pub fn count_rows<T: Copy>(histories: &Vec<History<T>>) -> (rows: Vec<usize>)
    ensures
        rows@ == history_rows(history_views(histories@)),
{
    let mut rows: Vec<usize> = Vec::new();
    let mut at: usize = 0;
    while at < histories.len()
        invariant
            at <= histories.len(),
            rows@ =~= history_rows(history_views(histories@)).take(at as int),
        decreases histories.len() - at,
    {
        rows.push(histories[at].rows());
        at = at + 1;
    }
    assert(rows@ =~= history_rows(history_views(histories@)));
    rows
}

/// Of each history the rows before `cutoff`, if there are at least `steps` of them.
pub open spec fn train_heads<T>(histories: Seq<HistoryView<T>>, cutoff: i32, steps: nat) -> Seq<
    HistoryView<T>,
>
    decreases histories.len(),
{
    if histories.len() == 0 {
        Seq::empty()
    } else {
        let earlier = train_heads(histories.drop_last(), cutoff, steps);
        let cut = rows_before(histories.last().dates, cutoff);
        if cut >= steps {
            earlier.push(histories.last().head(cut as int))
        } else {
            earlier
        }
    }
}

/// Of each history the rows from `cutoff` on, if there are at least `steps` of them.
pub open spec fn valid_tails<T>(histories: Seq<HistoryView<T>>, cutoff: i32, steps: nat) -> Seq<
    HistoryView<T>,
>
    decreases histories.len(),
{
    if histories.len() == 0 {
        Seq::empty()
    } else {
        let earlier = valid_tails(histories.drop_last(), cutoff, steps);
        let cut = rows_before(histories.last().dates, cutoff);
        if histories.last().rows() - cut >= steps {
            earlier.push(histories.last().tail(cut as int))
        } else {
            earlier
        }
    }
}

/// The `(ticker, start)` pairs of the windows of one ticker with `rows` rows. A ticker that
/// is too short has none.
pub open spec fn ticker_windows(ticker: int, rows: nat, steps: nat) -> Seq<(u32, u32)> {
    if rows < steps {
        Seq::empty()
    } else {
        Seq::new((rows - steps + 1) as nat, |start: int| (ticker as u32, start as u32))
    }
}

/// The `(ticker, start)` pairs of every window of tickers with these row counts, in
/// ticker-then-date order.
pub open spec fn window_pool(rows: Seq<usize>, steps: nat) -> Seq<(u32, u32)>
    decreases rows.len(),
{
    if rows.len() == 0 {
        Seq::empty()
    } else {
        window_pool(rows.drop_last(), steps) + ticker_windows(
            rows.len() - 1,
            rows.last() as nat,
            steps,
        )
    }
}

/// Every ticker index and every window start fits into 32 bits.
pub open spec fn pool_fits(rows: Seq<usize>, steps: nat) -> bool {
    forall|t: int|
        0 <= t < rows.len() && #[trigger] rows[t] >= steps ==> t <= u32::MAX && rows[t] - steps
            <= u32::MAX
}

/// Enumerate every `steps`-length window as a `(ticker_index, window_start)` pair. Tickers
/// too short for a single window contribute none.
pub fn enumerate_windows(rows: &Vec<usize>, steps: usize) -> (windows: Vec<(u32, u32)>)
    requires
        pool_fits(rows@, steps as nat),
    ensures
        windows@ == window_pool(rows@, steps as nat),
{
    let mut windows: Vec<(u32, u32)> = Vec::new();
    let mut ticker: usize = 0;
    while ticker < rows.len()
        invariant
            ticker <= rows.len(),
            pool_fits(rows@, steps as nat),
            windows@ =~= window_pool(rows@.take(ticker as int), steps as nat),
        decreases rows.len() - ticker,
    {
        let ghost before = windows@;
        let count = rows[ticker];
        if count >= steps {
            let last_start: usize = count - steps;
            let mut start: usize = 0;
            loop
                invariant_except_break
                    start <= last_start,
                    windows@ =~= before + Seq::new(
                        start as nat,
                        |s: int| (ticker as u32, s as u32),
                    ),
                invariant
                    ticker <= u32::MAX,
                    last_start <= u32::MAX,
                ensures
                    windows@ =~= before + Seq::new(
                        (last_start + 1) as nat,
                        |s: int| (ticker as u32, s as u32),
                    ),
                decreases last_start - start,
            {
                windows.push((ticker as u32, start as u32));
                if start == last_start {
                    break;
                }
                start = start + 1;
            }
        }
        proof {
            let longer = rows@.take(ticker + 1);
            assert(longer.drop_last() =~= rows@.take(ticker as int));
            assert(windows@ =~= before + ticker_windows(
                ticker as int,
                count as nat,
                steps as nat,
            ));
        }
        ticker = ticker + 1;
    }
    assert(rows@.take(ticker as int) =~= rows@);
    windows
}

/// The pool holds exactly the windows that lie within their ticker's rows.
pub proof fn pool_holds_every_window(rows: Seq<usize>, steps: nat, ticker: u32, start: u32)
    requires
        pool_fits(rows, steps),
    ensures
        window_pool(rows, steps).contains((ticker, start)) <==> ticker < rows.len() && start + steps
            <= rows[ticker as int],
    decreases rows.len(),
{
    let pool = window_pool(rows, steps);
    if rows.len() > 0 {
        let shorter = rows.drop_last();
        let last = ticker_windows(rows.len() - 1, rows.last() as nat, steps);
        let earlier = window_pool(shorter, steps);
        assert forall|t: int| 0 <= t < shorter.len() && #[trigger] shorter[t] >= steps implies t
            <= u32::MAX && shorter[t] - steps <= u32::MAX by {
            assert(rows[t] == shorter[t]);
        }
        pool_holds_every_window(shorter, steps, ticker, start);
        assert(pool == earlier + last);
        if rows.last() >= steps {
            assert(rows[rows.len() - 1] >= steps);
        }
        if pool.contains((ticker, start)) {
            let k = choose|k: int| 0 <= k < pool.len() && pool[k] == (ticker, start);
            if k < earlier.len() {
                assert(earlier[k] == (ticker, start));
            } else {
                assert(last[k - earlier.len()] == (ticker, start));
            }
        }
        if ticker < rows.len() && start + steps <= rows[ticker as int] {
            if ticker < shorter.len() {
                let k = choose|k: int| 0 <= k < earlier.len() && earlier[k] == (ticker, start);
                assert(pool[k] == (ticker, start));
            } else {
                assert(last[start as int] == (ticker, start));
                assert(pool[earlier.len() + start] == (ticker, start));
            }
        }
    }
}

/// The pool holds no window twice.
pub proof fn pool_has_no_duplicates(rows: Seq<usize>, steps: nat)
    requires
        pool_fits(rows, steps),
    ensures
        window_pool(rows, steps).no_duplicates(),
    decreases rows.len(),
{
    if rows.len() > 0 {
        let pool = window_pool(rows, steps);
        let shorter = rows.drop_last();
        let last = ticker_windows(rows.len() - 1, rows.last() as nat, steps);
        let earlier = window_pool(shorter, steps);
        assert forall|t: int| 0 <= t < shorter.len() && #[trigger] shorter[t] >= steps implies t
            <= u32::MAX && shorter[t] - steps <= u32::MAX by {
            assert(rows[t] == shorter[t]);
        }
        pool_has_no_duplicates(shorter, steps);
        if rows.last() >= steps {
            assert(rows[rows.len() - 1] >= steps);
        }
        assert forall|i: int, j: int| 0 <= i < pool.len() && 0 <= j < pool.len() && i != j implies
            pool[i] != pool[j] by {
            if i < earlier.len() && j < earlier.len() {
                assert(earlier[i] != earlier[j]);
            } else if i < earlier.len() {
                pool_holds_every_window(shorter, steps, earlier[i].0, earlier[i].1);
                assert(earlier.contains(earlier[i]));
                assert(pool[j] == last[j - earlier.len()]);
            } else if j < earlier.len() {
                pool_holds_every_window(shorter, steps, earlier[j].0, earlier[j].1);
                assert(earlier.contains(earlier[j]));
                assert(pool[i] == last[i - earlier.len()]);
            } else {
                assert(pool[i] == last[i - earlier.len()]);
                assert(pool[j] == last[j - earlier.len()]);
            }
        }
    }
}

/// Picked features stand row by row as they stood at the picked rows.
pub proof fn picked_features_are_those_of_the_rows<T>(
    features: Seq<T>,
    rows: Seq<usize>,
    k: int,
    f: int,
)
    requires
        forall|i: int| 0 <= i < rows.len() ==> (#[trigger] rows[i] + 1) * 5 <= features.len(),
        0 <= k < rows.len(),
        0 <= f < 5,
    ensures
        features_at(features, rows).len() == rows.len() * 5,
        features_at(features, rows)[k * 5 + f] == features[rows[k] * 5 + f],
    decreases rows.len(),
{
    reveal_with_fuel(features_at, 2);
    let fewer = rows.drop_last();
    let last = rows.last();
    assert((rows[rows.len() - 1] + 1) * 5 <= features.len());
    assert forall|i: int| 0 <= i < fewer.len() implies (#[trigger] fewer[i] + 1) * 5
        <= features.len() by {
        assert((rows[i] + 1) * 5 <= features.len());
    }
    if fewer.len() > 0 {
        picked_features_are_those_of_the_rows(
            features,
            fewer,
            if k < fewer.len() {
                k
            } else {
                0
            },
            f,
        );
    }
    let entry = features.subrange(last * FEATURES, last * FEATURES + FEATURES);
    assert(entry.len() == 5);
    if k == fewer.len() {
        assert(entry[f] == features[last * 5 + f]);
    }
}

} // verus!
