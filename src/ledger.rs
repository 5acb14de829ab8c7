use vstd::prelude::*;

use crate::error::Error;
use crate::refs::{names_of, Observed, Ref, RefDiff};

verus! {

/// One interval of the ledger: `name` pointed at `sha` from `from_date`
/// until `to_date` (seconds since the Unix epoch, UTC). A row without
/// `to_date` is open: the reference still points there.
pub struct HistoryRow {
    pub name: String,
    pub from_date: i64,
    pub to_date: Option<i64>,
    pub sha: String,
    pub tag: bool,
}

/// What a ledger row says, as plain values.
pub struct RowView {
    pub name: Seq<char>,
    pub from_date: int,
    pub to_date: Option<int>,
    pub sha: Seq<char>,
    pub tag: bool,
}

impl View for HistoryRow {
    type V = RowView;

    open spec fn view(&self) -> RowView {
        RowView {
            name: self.name@,
            from_date: self.from_date as int,
            to_date: match self.to_date {
                Some(t) => Some(t as int),
                None => None,
            },
            sha: self.sha@,
            tag: self.tag,
        }
    }
}

/// Whether `r` is the open row of `name`.
pub open spec fn is_open_for(r: RowView, name: Seq<char>) -> bool {
    r.name == name && r.to_date is None
}

/// Whether some row of `rows` is open for `name`.
pub open spec fn has_open(rows: Seq<RowView>, name: Seq<char>) -> bool {
    exists|i: int| 0 <= i < rows.len() && is_open_for(#[trigger] rows[i], name)
}

/// No name has two open rows.
pub open spec fn single_open(rows: Seq<RowView>) -> bool {
    forall|i: int, j: int|
        0 <= i < rows.len() && 0 <= j < rows.len() && i != j && rows[i].to_date is None
            && rows[j].to_date is None ==> #[trigger] rows[i].name != #[trigger] rows[j].name
}

/// `r` with its interval ended at `at`.
pub open spec fn closed_at(r: RowView, at: int) -> RowView {
    RowView { to_date: Some(at), ..r }
}

/// The rows after the open row of `name` is closed at `at`.
pub open spec fn close_row(rows: Seq<RowView>, name: Seq<char>, at: int) -> Seq<RowView> {
    Seq::new(
        rows.len(),
        |i: int|
            if is_open_for(rows[i], name) {
                closed_at(rows[i], at)
            } else {
                rows[i]
            },
    )
}

/// Closing the rows of `names` one after another; `None` where one of them
/// has no open row at its turn.
pub open spec fn close_names(rows: Seq<RowView>, names: Seq<Seq<char>>, at: int) -> Option<
    Seq<RowView>,
>
    decreases names.len(),
{
    if names.len() == 0 {
        Some(rows)
    } else if !has_open(rows, names[0]) {
        None
    } else {
        close_names(close_row(rows, names[0], at), names.drop_first(), at)
    }
}

/// Appending the open rows `entries` one after another; `None` where one of
/// them names a reference that already has an open row at its turn.
pub open spec fn open_rows(rows: Seq<RowView>, entries: Seq<RowView>) -> Option<Seq<RowView>>
    decreases entries.len(),
{
    if entries.len() == 0 {
        Some(rows)
    } else if has_open(rows, entries[0].name) {
        None
    } else {
        open_rows(rows.push(entries[0]), entries.drop_first())
    }
}

/// The open row that a run at `at` writes for reference `r` at commit `sha`.
pub open spec fn opening_row(r: Ref, sha: Seq<char>, at: int) -> RowView {
    RowView { name: r.name@, from_date: at, to_date: None, sha, tag: r.tag }
}

/// The rows that a run opens: one per frontier reference, with its commit.
pub open spec fn opening_rows(frontier: Seq<Ref>, shas: Seq<Seq<char>>, at: int) -> Seq<RowView> {
    Seq::new(frontier.len(), |k: int| opening_row(frontier[k], shas[k], at))
}

/// The ledger after one run: the rows of the closing references are closed,
/// then the frontier's rows are opened, all at `at`.
pub open spec fn run_rows(
    rows: Seq<RowView>,
    closing: Seq<Seq<char>>,
    frontier: Seq<Ref>,
    shas: Seq<Seq<char>>,
    at: int,
) -> Option<Seq<RowView>> {
    match close_names(rows, closing, at) {
        Some(c) => open_rows(c, opening_rows(frontier, shas, at)),
        None => None,
    }
}

/// The views of some strings, in order.
pub open spec fn texts_of(v: Seq<String>) -> Seq<Seq<char>> {
    v.map_values(|s: String| s@)
}

/// What a run of `diff` at `at` makes of `rows`, with `shas` the commits of
/// the frontier references.
pub open spec fn run_of(rows: Seq<RowView>, diff: RefDiff, shas: Seq<String>, at: int) -> Option<
    Seq<RowView>,
> {
    run_rows(rows, names_of(diff.closing()), diff.frontier(), texts_of(shas), at)
}

proof fn lemma_close_row_single_open(rows: Seq<RowView>, name: Seq<char>, at: int)
    requires
        single_open(rows),
    ensures
        single_open(close_row(rows, name, at)),
{
}

proof fn lemma_close_names_single_open(rows: Seq<RowView>, names: Seq<Seq<char>>, at: int)
    requires
        single_open(rows),
        close_names(rows, names, at) is Some,
    ensures
        single_open(close_names(rows, names, at)->Some_0),
    decreases names.len(),
{
    if names.len() > 0 {
        lemma_close_row_single_open(rows, names[0], at);
        lemma_close_names_single_open(close_row(rows, names[0], at), names.drop_first(), at);
    }
}

proof fn lemma_open_rows_single_open(rows: Seq<RowView>, entries: Seq<RowView>)
    requires
        single_open(rows),
        open_rows(rows, entries) is Some,
        forall|k: int| 0 <= k < entries.len() ==> (#[trigger] entries[k]).to_date is None,
    ensures
        single_open(open_rows(rows, entries)->Some_0),
        open_rows(rows, entries)->Some_0 == rows + entries,
    decreases entries.len(),
{
    if entries.len() > 0 {
        let next = rows.push(entries[0]);
        assert forall|i: int, j: int|
            0 <= i < next.len() && 0 <= j < next.len() && i != j && next[i].to_date is None
                && next[j].to_date is None implies #[trigger] next[i].name
                != #[trigger] next[j].name by {
            if i == rows.len() as int {
                assert(is_open_for(rows[j], entries[0].name) ==> has_open(rows, entries[0].name));
            } else if j == rows.len() as int {
                assert(is_open_for(rows[i], entries[0].name) ==> has_open(rows, entries[0].name));
            }
        }
        let rest = entries.drop_first();
        assert forall|k: int| 0 <= k < rest.len() implies (#[trigger] rest[k]).to_date is None by {
            assert(rest[k] == entries[k + 1]);
        }
        lemma_open_rows_single_open(next, rest);
        assert(next + rest =~= rows + entries);
    }
}

/// A run never leaves a reference with two open rows: starting from a ledger
/// where each name has at most one open row, the ledger after any successful
/// run has the same property. With the empty ledger as the start, this holds
/// of every history that a sequence of runs produces.
pub proof fn lemma_run_keeps_single_open(
    rows: Seq<RowView>,
    diff: RefDiff,
    shas: Seq<String>,
    at: int,
)
    requires
        single_open(rows),
        shas.len() == diff.frontier().len(),
        run_of(rows, diff, shas, at) is Some,
    ensures
        single_open(run_of(rows, diff, shas, at)->Some_0),
{
    let names = names_of(diff.closing());
    lemma_close_names_single_open(rows, names, at);
    let closed = close_names(rows, names, at)->Some_0;
    let entries = opening_rows(diff.frontier(), texts_of(shas), at);
    lemma_open_rows_single_open(closed, entries);
}

proof fn lemma_close_names_rows(rows: Seq<RowView>, names: Seq<Seq<char>>, at: int)
    requires
        close_names(rows, names, at) is Some,
    ensures
        close_names(rows, names, at)->Some_0.len() == rows.len(),
        forall|i: int|
            0 <= i < rows.len() && rows[i].to_date is Some ==> (#[trigger] close_names(
                rows,
                names,
                at,
            )->Some_0[i]) == rows[i],
        forall|i: int, k: int|
            #![trigger close_names(rows, names, at)->Some_0[i], names[k]]
            0 <= i < rows.len() && 0 <= k < names.len() && is_open_for(rows[i], names[k])
                ==> close_names(rows, names, at)->Some_0[i] == closed_at(rows[i], at),
    decreases names.len(),
{
    if names.len() > 0 {
        let next = close_row(rows, names[0], at);
        let rest = names.drop_first();
        lemma_close_names_rows(next, rest, at);
        let r = close_names(rows, names, at)->Some_0;
        assert forall|i: int, k: int|
            0 <= i < rows.len() && 0 <= k < names.len() && is_open_for(
                rows[i],
                names[k],
            ) implies r[i] == closed_at(rows[i], at) by {
            if k == 0 {
                assert(next[i] == closed_at(rows[i], at));
                assert(next[i].to_date is Some);
            } else {
                assert(rest[k - 1] == names[k]);
                if is_open_for(rows[i], names[0]) {
                    assert(next[i].to_date is Some);
                } else {
                    assert(is_open_for(next[i], rest[k - 1]));
                }
            }
        }
    }
}

/// Intervals abut: where a reference with an open row (opened at some earlier
/// run) is among the changed references of a run at `at`, that row is closed
/// exactly at `at`, and the run opens the reference's new row from `at`, so
/// there is neither a gap nor an overlap between the two.
pub proof fn lemma_interval_abutment(
    rows: Seq<RowView>,
    diff: RefDiff,
    shas: Seq<String>,
    at: int,
    i: int,
    c: int,
)
    requires
        shas.len() == diff.frontier().len(),
        run_of(rows, diff, shas, at) is Some,
        0 <= i < rows.len(),
        0 <= c < diff.changed@.len(),
        is_open_for(rows[i], diff.changed@[c].name@),
    ensures
        run_of(rows, diff, shas, at)->Some_0[i] == closed_at(rows[i], at),
        run_of(rows, diff, shas, at)->Some_0[rows.len() + c] == opening_row(
            diff.changed@[c],
            shas[c]@,
            at,
        ),
        run_of(rows, diff, shas, at)->Some_0[rows.len() + c].name == rows[i].name,
        run_of(rows, diff, shas, at)->Some_0[rows.len() + c].from_date == at,
        run_of(rows, diff, shas, at)->Some_0[rows.len() + c].to_date is None,
{
    let names = names_of(diff.closing());
    let k = diff.removed@.len() + c;
    assert(names[k] == diff.changed@[c].name@);
    lemma_close_names_rows(rows, names, at);
    let closed = close_names(rows, names, at)->Some_0;
    let entries = opening_rows(diff.frontier(), texts_of(shas), at);
    lemma_open_rows_facts(closed, entries);
    assert(entries[c] == opening_row(diff.changed@[c], shas[c]@, at));
}

proof fn lemma_open_rows_facts(rows: Seq<RowView>, entries: Seq<RowView>)
    requires
        open_rows(rows, entries) is Some,
    ensures
        open_rows(rows, entries)->Some_0 == rows + entries,
    decreases entries.len(),
{
    if entries.len() > 0 {
        lemma_open_rows_facts(rows.push(entries[0]), entries.drop_first());
        assert(rows.push(entries[0]) + entries.drop_first() =~= rows + entries);
    }
}

/// The text under which the ledger stores the instant `secs` (seconds since
/// the Unix epoch): `YYYY-MM-DD HH:MM:SS` in UTC.
pub uninterp spec fn utc_text(secs: int) -> Seq<char>;

/// The last second of the year 9999, UTC, in seconds since the Unix epoch.
pub const LAST_LEDGER_SECOND: i64 = 253402300799;

/// Relies on chrono's `DateTime::from_timestamp_secs`, `None` only where
/// `secs` lies outside its range of some 262,000 years either side of year
/// zero (so never from 1970 to the end of 9999), and on its
/// `%Y-%m-%d %H:%M:%S` formatting of the UTC instant.
#[verifier::external_body]
fn format_utc(secs: i64) -> (r: Option<String>)
    ensures
        0 <= secs <= LAST_LEDGER_SECOND ==> r is Some,
        r matches Some(t) ==> t@ == utc_text(secs as int),
{
    match chrono::DateTime::from_timestamp_secs(secs) {
        Some(d) => Some(d.format("%Y-%m-%d %H:%M:%S").to_string()),
        None => None,
    }
}

/// The ledger's text for instant `secs`; always present from the Unix
/// epoch to the end of year 9999, `None` only where the instant lies outside
/// the calendar's range.
pub fn ledger_time_text(secs: i64) -> (r: Option<String>)
    ensures
        0 <= secs <= LAST_LEDGER_SECOND ==> r is Some,
        r matches Some(t) ==> t@ == utc_text(secs as int),
{
    format_utc(secs)
}

/// Reference name, kind and commit of a row.
pub open spec fn recorded_of(w: RowView) -> (Seq<char>, bool, Seq<char>) {
    (w.name, w.tag, w.sha)
}

/// Reference name, kind and commit of each listed reference.
pub open spec fn observed_triples(obs: Seq<Observed>) -> Seq<(Seq<char>, bool, Seq<char>)> {
    obs.map_values(|o: Observed| (o.r.name@, o.r.tag, o.sha@))
}

/// The references that the ledger holds as current: those of its open rows,
/// with their commits, in row order.
pub open spec fn recorded_refs(rows: Seq<RowView>) -> Seq<(Seq<char>, bool, Seq<char>)> {
    rows.filter(|w: RowView| w.to_date is None).map_values(|w: RowView| recorded_of(w))
}

/// One change that a run makes to the ledger, in the order it is made.
pub enum LedgerOp {
    /// End the open interval of `name` at `at`.
    Close { name: String, at: i64 },
    /// Start a new interval.
    Open { row: HistoryRow },
}

/// The history of a repository's references.
pub struct Ledger {
    pub rows: Vec<HistoryRow>,
}

impl View for Ledger {
    type V = Seq<RowView>;

    open spec fn view(&self) -> Seq<RowView> {
        self.rows@.map_values(|r: HistoryRow| r@)
    }
}

impl HistoryRow {
    /// A row with the same contents.
    pub fn copy(&self) -> (r: HistoryRow)
        ensures
            r@ == self@,
    {
        HistoryRow {
            name: self.name.clone(),
            from_date: self.from_date,
            to_date: self.to_date,
            sha: self.sha.clone(),
            tag: self.tag,
        }
    }
}

impl Ledger {
    /// A ledger that holds no rows, as it is when first created.
    pub fn new() -> (l: Ledger)
        ensures
            l@ == Seq::<RowView>::empty(),
            single_open(l@),
    {
        Ledger { rows: Vec::new() }
    }

    /// The references recorded as current, with their commits: one for each
    /// open row, in row order. A run classifies what it fetches against
    /// this set.
    pub fn recorded(&self) -> (r: Vec<Observed>)
        ensures
            observed_triples(r@) == recorded_refs(self@),
    {
        let ghost pred = |w: RowView| w.to_date is None;
        let mut out: Vec<Observed> = Vec::new();
        let mut i: usize = 0;
        while i < self.rows.len()
            invariant
                i <= self.rows@.len(),
                pred == (|w: RowView| w.to_date is None),
                observed_triples(out@) == self@.take(i as int).filter(pred).map_values(
                    |w: RowView| recorded_of(w),
                ),
            decreases self.rows@.len() - i,
        {
            let row = &self.rows[i];
            let ghost before = self@.take(i as int);
            assert(self@.take(i as int + 1) =~= before.push(row@));
            proof {
                before.lemma_filter_push(row@, pred);
            }
            let ghost out_before = out@;
            if row.to_date.is_none() {
                out.push(
                    Observed { r: Ref { name: row.name.clone(), tag: row.tag }, sha: row.sha.clone() },
                );
                assert(observed_triples(out@) =~= observed_triples(out_before).push(
                    recorded_of(row@),
                ));
                assert(before.filter(pred).push(row@).map_values(|w: RowView| recorded_of(w))
                    =~= before.filter(pred).map_values(|w: RowView| recorded_of(w)).push(
                    recorded_of(row@),
                ));
            }
            i = i + 1;
        }
        assert(self@.take(self@.len() as int) =~= self@);
        out
    }

    /// Whether `name` has an open row.
    pub fn is_open(&self, name: &String) -> (b: bool)
        ensures
            b == has_open(self@, name@),
    {
        let mut i: usize = 0;
        while i < self.rows.len()
            invariant
                i <= self.rows@.len(),
                forall|j: int| 0 <= j < i ==> !is_open_for(#[trigger] self@[j], name@),
            decreases self.rows@.len() - i,
        {
            if self.rows[i].to_date.is_none() && self.rows[i].name == *name {
                assert(is_open_for(self@[i as int], name@));
                return true;
            }
            i = i + 1;
        }
        false
    }

    /// Close the open row of `name` at `at`. Fails, changing nothing, where
    /// `name` has no open row.
    pub fn close(&mut self, name: &String, at: i64) -> (r: Result<(), Error>)
        ensures
            r is Ok <==> has_open(old(self)@, name@),
            r is Ok ==> final(self)@ == close_row(old(self)@, name@, at as int),
            r is Err ==> final(self)@ == old(self)@ && r->Err_0 == Error::MissingOpenRow(
                *name,
            ),
    {
        if !self.is_open(name) {
            return Err(Error::MissingOpenRow(name.clone()));
        }
        let ghost target = close_row(self@, name@, at as int);
        let mut out: Vec<HistoryRow> = Vec::new();
        let mut i: usize = 0;
        while i < self.rows.len()
            invariant
                i <= self.rows@.len(),
                target == close_row(self@, name@, at as int),
                out@.len() == i,
                forall|j: int| 0 <= j < i ==> (#[trigger] out@[j])@ == target[j],
            decreases self.rows@.len() - i,
        {
            let row = &self.rows[i];
            if row.to_date.is_none() && row.name == *name {
                out.push(
                    HistoryRow {
                        name: row.name.clone(),
                        from_date: row.from_date,
                        to_date: Some(at),
                        sha: row.sha.clone(),
                        tag: row.tag,
                    },
                );
            } else {
                out.push(row.copy());
            }
            i = i + 1;
        }
        self.rows = out;
        assert(self@ =~= target);
        Ok(())
    }

    /// Record one run at `at`: close the open rows of the removed and changed
    /// references, then open a row for each changed and new reference, at its
    /// commit in `shas`. Returns the changes made, closes first, in order.
    /// Fails, leaving the ledger as it was, where a closing reference has no
    /// open row or an opening one already has one at its turn.
    pub fn record_run(&mut self, diff: &RefDiff, shas: &Vec<String>, at: i64) -> (res: Result<
        Vec<LedgerOp>,
        Error,
    >)
        requires
            shas@.len() == diff.frontier().len(),
            diff.closing().len() <= usize::MAX,
        ensures
            res is Ok <==> run_of(old(self)@, *diff, shas@, at as int) is Some,
            res is Ok ==> final(self)@ == run_of(old(self)@, *diff, shas@, at as int)->Some_0,
            res is Err ==> final(self)@ == old(self)@,
            single_open(old(self)@) ==> single_open(final(self)@),
            res is Ok ==> res->Ok_0@.len() == diff.closing().len() + diff.frontier().len(),
            res is Ok ==> forall|k: int|
                0 <= k < diff.closing().len() ==> (#[trigger] res->Ok_0@[k] matches LedgerOp::Close {
                    name,
                    at: t,
                } && name@ == diff.closing()[k].name@ && t == at),
            res is Ok ==> forall|k: int|
                0 <= k < diff.frontier().len() ==> (#[trigger] res->Ok_0@[diff.closing().len()
                    + k] matches LedgerOp::Open { row } && row@ == opening_row(
                    diff.frontier()[k],
                    shas@[k]@,
                    at as int,
                )),
    {
        let ghost names = names_of(diff.closing());
        let ghost entries = opening_rows(diff.frontier(), texts_of(shas@), at as int);
        let mut rows: Vec<HistoryRow> = Vec::new();
        let mut i: usize = 0;
        while i < self.rows.len()
            invariant
                i <= self.rows@.len(),
                rows@.len() == i,
                forall|j: int| 0 <= j < i ==> (#[trigger] rows@[j])@ == self@[j],
            decreases self.rows@.len() - i,
        {
            rows.push(self.rows[i].copy());
            i = i + 1;
        }
        let mut work = Ledger { rows };
        assert(work@ =~= self@);
        let mut ops: Vec<LedgerOp> = Vec::new();
        let n_close = diff.removed.len() + diff.changed.len();
        let mut k: usize = 0;
        assert(names.subrange(0, n_close as int) =~= names);
        while k < n_close
            invariant
                n_close == diff.closing().len(),
                names == names_of(diff.closing()),
                k <= n_close,
                close_names(self@, names, at as int) == close_names(
                    work@,
                    names.subrange(k as int, n_close as int),
                    at as int,
                ),
                ops@.len() == k,
                forall|j: int|
                    0 <= j < k ==> (#[trigger] ops@[j] matches LedgerOp::Close { name, at: t }
                        && name@ == diff.closing()[j].name@ && t == at),
            decreases n_close - k,
        {
            let r = diff.closing_at(k);
            assert(names.subrange(k as int, n_close as int).drop_first() =~= names.subrange(
                k as int + 1,
                n_close as int,
            ));
            assert(names.subrange(k as int, n_close as int)[0] == r.name@);
            match work.close(&r.name, at) {
                Ok(()) => {},
                Err(e) => {
                    return Err(e);
                },
            }
            ops.push(LedgerOp::Close { name: r.name.clone(), at });
            k = k + 1;
        }
        let n_open = shas.len();
        let ghost closed = work@;
        assert(names.subrange(n_close as int, n_close as int) =~= Seq::<Seq<char>>::empty());
        let mut m: usize = 0;
        assert(entries.subrange(0, n_open as int) =~= entries);
        while m < n_open
            invariant
                n_open == diff.frontier().len(),
                n_close == diff.closing().len(),
                shas@.len() == n_open,
                entries == opening_rows(diff.frontier(), texts_of(shas@), at as int),
                close_names(self@, names_of(diff.closing()), at as int) == Some(closed),
                m <= n_open,
                open_rows(closed, entries) == open_rows(
                    work@,
                    entries.subrange(m as int, n_open as int),
                ),
                ops@.len() == n_close + m,
                forall|j: int|
                    0 <= j < n_close ==> (#[trigger] ops@[j] matches LedgerOp::Close { name, at: t }
                        && name@ == diff.closing()[j].name@ && t == at),
                forall|j: int|
                    0 <= j < m ==> (#[trigger] ops@[n_close + j] matches LedgerOp::Open { row }
                        && row@ == opening_row(diff.frontier()[j], shas@[j]@, at as int)),
            decreases n_open - m,
        {
            let r = diff.frontier_at(m);
            assert(entries.subrange(m as int, n_open as int).drop_first() =~= entries.subrange(
                m as int + 1,
                n_open as int,
            ));
            assert(entries.subrange(m as int, n_open as int)[0] == opening_row(
                *r,
                shas@[m as int]@,
                at as int,
            ));
            match work.open(r, &shas[m], at) {
                Ok(()) => {},
                Err(e) => {
                    return Err(e);
                },
            }
            ops.push(
                LedgerOp::Open {
                    row: HistoryRow {
                        name: r.name.clone(),
                        from_date: at,
                        to_date: None,
                        sha: shas[m].clone(),
                        tag: r.tag,
                    },
                },
            );
            m = m + 1;
        }
        assert(entries.subrange(n_open as int, n_open as int) =~= Seq::<RowView>::empty());
        self.rows = work.rows;
        proof {
            if single_open(old(self)@) {
                lemma_run_keeps_single_open(old(self)@, *diff, shas@, at as int);
            }
        }
        Ok(ops)
    }

    /// Open a row for `r` at commit `sha` from `at`. Fails, changing nothing,
    /// where `r` already has an open row.
    pub fn open(&mut self, r: &Ref, sha: &String, at: i64) -> (res: Result<(), Error>)
        ensures
            res is Ok <==> !has_open(old(self)@, r.name@),
            res is Ok ==> final(self)@ == old(self)@.push(opening_row(*r, sha@, at as int)),
            res is Err ==> final(self)@ == old(self)@ && res->Err_0 == Error::DuplicateOpenRow(
                r.name,
            ),
    {
        if self.is_open(&r.name) {
            return Err(Error::DuplicateOpenRow(r.name.clone()));
        }
        self.rows.push(
            HistoryRow {
                name: r.name.clone(),
                from_date: at,
                to_date: None,
                sha: sha.clone(),
                tag: r.tag,
            },
        );
        assert(self@ =~= old(self)@.push(opening_row(*r, sha@, at as int)));
        Ok(())
    }
}

} // verus!
