//! The view session: the table snapshot, the filters and sort keys the
//! client set, and the materialized view derived from them.
use vstd::prelude::*;
use vstd::string::StringExecFns;
use crate::filter::{
    evaluate_filters, filter_issue, selected, selected_below, selected_rows, FilterIssue,
    RowFilter,
};
use crate::sort::{same_rows, sort_rows, sorted_by, SortKey};
use crate::table::{CellValue, DataTable};

verus! {

/// The message reported on a filter that cannot be applied.
pub open spec fn issue_message(i: FilterIssue) -> Seq<char> {
    match i {
        FilterIssue::ColumnMissing => "the filtered column no longer exists"@,
        FilterIssue::UnsupportedType => "the filter does not apply to the column's type"@,
        FilterIssue::BadLiteral => "a value does not parse as the column's type"@,
        FilterIssue::BadPattern => "the search term is not a valid regular expression"@,
    }
}

pub fn issue_text(i: FilterIssue) -> (r: String)
    ensures
        r@ == issue_message(i),
        r@.len() > 0,
{
    proof {
        reveal_strlit("the filtered column no longer exists");
        reveal_strlit("the filter does not apply to the column's type");
        reveal_strlit("a value does not parse as the column's type");
        reveal_strlit("the search term is not a valid regular expression");
    }
    match i {
        FilterIssue::ColumnMissing => String::from_str("the filtered column no longer exists"),
        FilterIssue::UnsupportedType => String::from_str(
            "the filter does not apply to the column's type",
        ),
        FilterIssue::BadLiteral => String::from_str("a value does not parse as the column's type"),
        FilterIssue::BadPattern => String::from_str(
            "the search term is not a valid regular expression",
        ),
    }
}

/// `f` carries the validity that issue `i` gives it.
pub open spec fn status_matches(f: RowFilter, i: Option<FilterIssue>) -> bool {
    &&& f.is_valid == Some(i is None)
    &&& i is None ==> f.error_message is None
    &&& i is Some ==> f.error_message is Some && f.error_message->0@ == issue_message(i->0)
}

/// `s` is `f` with only its validity and message rewritten.
pub open spec fn same_filter(s: RowFilter, f: RowFilter) -> bool {
    &&& s.filter_id == f.filter_id
    &&& s.column_schema == f.column_schema
    &&& s.kind == f.kind
    &&& s.condition == f.condition
}

/// `v` is the view of table `t` under filters `fs` and sort keys `ks`: the
/// selected rows, each once, in sort order.
pub open spec fn is_view(t: DataTable, fs: Seq<RowFilter>, ks: Seq<SortKey>, v: Seq<usize>) -> bool {
    same_rows(v, selected_rows(t, fs)) && sorted_by(t, ks, v)
}

proof fn lemma_selected_below(t: DataTable, fs: Seq<RowFilter>, n: int)
    requires
        0 <= n <= t.num_rows,
    ensures
        forall|i: int, j: int|
            0 <= i < j < selected_below(t, fs, n).len() ==> #[trigger] selected_below(t, fs, n)[i]
                < #[trigger] selected_below(t, fs, n)[j],
        forall|i: int|
            0 <= i < selected_below(t, fs, n).len() ==> #[trigger] selected_below(t, fs, n)[i] < n,
        selected_below(t, fs, n).no_duplicates(),
        selected_below(t, fs, n).len() <= n,
    decreases n,
{
    let s = selected_below(t, fs, n);
    if n > 0 {
        lemma_selected_below(t, fs, n - 1);
        let p = selected_below(t, fs, n - 1);
        if selected(t, fs, n - 1) {
            assert(s == p.push((n - 1) as usize));
            assert forall|i: int, j: int| 0 <= i < j < s.len() implies #[trigger] s[i]
                < #[trigger] s[j] by {
                if j < p.len() {
                    assert(s[i] == p[i] && s[j] == p[j]);
                } else {
                    assert(s[i] == p[i]);
                    assert(s[j] == n - 1);
                }
            }
        }
    }
    assert forall|i: int, j: int| 0 <= i < s.len() && 0 <= j < s.len() && i != j implies s[i]
        != s[j] by {
        if i < j {
            assert(s[i] < s[j]);
        } else {
            assert(s[j] < s[i]);
        }
    }
}

/// Every selected row is a row of the table.
pub proof fn lemma_selected_rows_bounded(t: DataTable, fs: Seq<RowFilter>, m: int)
    requires
        0 <= m < selected_rows(t, fs).len(),
    ensures
        selected_rows(t, fs)[m] < t.num_rows,
{
    lemma_selected_below(t, fs, t.num_rows as int);
}

/// Rewrites each filter's validity and message from its issue.
fn annotate(fs: Vec<RowFilter>, issues: &Vec<Option<FilterIssue>>) -> (r: Vec<RowFilter>)
    requires
        issues@.len() == fs@.len(),
    ensures
        r@.len() == fs@.len(),
        forall|i: int| 0 <= i < r@.len() ==> same_filter(#[trigger] r@[i], fs@[i]),
        forall|i: int| 0 <= i < r@.len() ==> status_matches(#[trigger] r@[i], issues@[i]),
{
    let mut src = fs;
    let ghost orig = src@;
    let mut out: Vec<RowFilter> = Vec::new();
    let mut i: usize = 0;
    while src.len() > 0
        invariant
            out@.len() == i,
            i + src@.len() == orig.len(),
            issues@.len() == orig.len(),
            src@ == orig.subrange(i as int, orig.len() as int),
            forall|k: int| 0 <= k < i ==> same_filter(#[trigger] out@[k], orig[k]),
            forall|k: int| 0 <= k < i ==> status_matches(#[trigger] out@[k], issues@[k]),
        decreases src.len(),
    {
        let f = src.remove(0);
        let issue = issues[i];
        let msg = match issue {
            Some(x) => Some(issue_text(x)),
            None => None,
        };
        let g = RowFilter {
            filter_id: f.filter_id,
            column_schema: f.column_schema,
            kind: f.kind,
            condition: f.condition,
            is_valid: Some(issue.is_none()),
            error_message: msg,
        };
        out.push(g);
        assert(i < issues.len());
        i = i + 1;
    }
    out
}

/// Two cells hold the same value.
pub open spec fn cell_same(x: CellValue, y: CellValue) -> bool {
    match (x, y) {
        (CellValue::Text(a), CellValue::Text(b)) => a@ == b@,
        (CellValue::Text(_), _) => false,
        (_, CellValue::Text(_)) => false,
        _ => x == y,
    }
}

/// Same columns, in the same order, with the same names and types.
pub open spec fn same_schema(a: DataTable, b: DataTable) -> bool {
    &&& a.columns@.len() == b.columns@.len()
    &&& forall|c: int|
        0 <= c < a.columns@.len() ==> (#[trigger] a.columns@[c]).name@ == b.columns@[c].name@
            && a.columns@[c].kind == b.columns@[c].kind
}

pub open spec fn labels_same(a: Option<Vec<String>>, b: Option<Vec<String>>) -> bool {
    match (a, b) {
        (None, None) => true,
        (Some(x), Some(y)) => x@.len() == y@.len() && forall|i: int|
            0 <= i < x@.len() ==> (#[trigger] x@[i])@ == y@[i]@,
        _ => false,
    }
}

/// Same number of rows, the same value in every cell, the same labels.
pub open spec fn same_data(a: DataTable, b: DataTable) -> bool {
    &&& a.num_rows == b.num_rows
    &&& forall|c: int, r: int|
        0 <= c < a.columns@.len() && 0 <= r < a.num_rows ==> cell_same(
            #[trigger] a.cell(c, r),
            #[trigger] b.cell(c, r),
        )
    &&& labels_same(a.row_labels, b.row_labels)
}

/// How a fresh snapshot of the source differs from the cached one.
pub open spec fn classify(old: DataTable, new: Option<DataTable>) -> Option<ChangeEvent> {
    match new {
        None => Some(ChangeEvent::Closed),
        Some(t) => if !same_schema(old, t) {
            Some(ChangeEvent::SchemaUpdate)
        } else if !same_data(old, t) {
            Some(ChangeEvent::DataUpdate)
        } else {
            None
        },
    }
}

pub fn cell_same_exec(x: &CellValue, y: &CellValue) -> (r: bool)
    ensures
        r == cell_same(*x, *y),
{
    match (x, y) {
        (CellValue::Missing, CellValue::Missing) => true,
        (CellValue::Number(a), CellValue::Number(b)) => *a == *b,
        (CellValue::Text(a), CellValue::Text(b)) => *a == *b,
        (CellValue::Boolean(a), CellValue::Boolean(b)) => *a == *b,
        (CellValue::Temporal(a), CellValue::Temporal(b)) => *a == *b,
        (CellValue::Special(a), CellValue::Special(b)) => *a == *b,
        _ => false,
    }
}

pub fn same_schema_exec(a: &DataTable, b: &DataTable) -> (r: bool)
    ensures
        r == same_schema(*a, *b),
{
    if a.columns.len() != b.columns.len() {
        return false;
    }
    let mut c: usize = 0;
    while c < a.columns.len()
        invariant
            a.columns@.len() == b.columns@.len(),
            0 <= c <= a.columns@.len(),
            forall|k: int|
                0 <= k < c ==> (#[trigger] a.columns@[k]).name@ == b.columns@[k].name@
                    && a.columns@[k].kind == b.columns@[k].kind,
        decreases a.columns.len() - c,
    {
        if a.columns[c].name != b.columns[c].name || a.columns[c].kind != b.columns[c].kind {
            return false;
        }
        c = c + 1;
    }
    true
}

#[verifier::loop_isolation(false)]
fn labels_same_exec(a: &Option<Vec<String>>, b: &Option<Vec<String>>) -> (r: bool)
    ensures
        r == labels_same(*a, *b),
{
    match (a, b) {
        (None, None) => true,
        (Some(x), Some(y)) => {
            if x.len() != y.len() {
                return false;
            }
            let mut i: usize = 0;
            while i < x.len()
                invariant
                    x@.len() == y@.len(),
                    0 <= i <= x@.len(),
                    forall|k: int| 0 <= k < i ==> (#[trigger] x@[k])@ == y@[k]@,
                decreases x.len() - i,
            {
                if x[i] != y[i] {
                    assert(x@[i as int]@ != y@[i as int]@);
                    return false;
                }
                i = i + 1;
            }
            true
        },
        _ => false,
    }
}

#[verifier::rlimit(40)]
pub fn same_data_exec(a: &DataTable, b: &DataTable) -> (r: bool)
    requires
        a.wf(),
        b.wf(),
        same_schema(*a, *b),
    ensures
        r == same_data(*a, *b),
{
    if a.num_rows != b.num_rows {
        return false;
    }
    let mut c: usize = 0;
    while c < a.columns.len()
        invariant
            a.wf(),
            b.wf(),
            same_schema(*a, *b),
            a.num_rows == b.num_rows,
            0 <= c <= a.columns@.len(),
            forall|k: int, r: int|
                0 <= k < c && 0 <= r < a.num_rows ==> cell_same(
                    #[trigger] a.cell(k, r),
                    #[trigger] b.cell(k, r),
                ),
        decreases a.columns.len() - c,
    {
        let ca = &a.columns[c];
        let cb = &b.columns[c];
        assert(ca.values@.len() == a.num_rows && cb.values@.len() == b.num_rows);
        let mut r: usize = 0;
        while r < a.num_rows
            invariant
                a.wf(),
                b.wf(),
                a.num_rows == b.num_rows,
                c < a.columns@.len(),
                c < b.columns@.len(),
                *ca == a.columns@[c as int],
                *cb == b.columns@[c as int],
                0 <= r <= a.num_rows,
                forall|k: int, q: int|
                    0 <= k < c && 0 <= q < a.num_rows ==> cell_same(
                        #[trigger] a.cell(k, q),
                        #[trigger] b.cell(k, q),
                    ),
                forall|q: int|
                    0 <= q < r ==> cell_same(#[trigger] a.cell(c as int, q), b.cell(c as int, q)),
            decreases a.num_rows - r,
        {
            assert(ca.values@.len() == a.num_rows && cb.values@.len() == b.num_rows);
            if !cell_same_exec(&ca.values[r], &cb.values[r]) {
                assert(!cell_same(a.cell(c as int, r as int), b.cell(c as int, r as int)));
                return false;
            }
            r = r + 1;
        }
        c = c + 1;
    }
    labels_same_exec(&a.row_labels, &b.row_labels)
}

/// The number of rows and columns of a table or of a view.
#[derive(Clone, Copy, Debug, PartialEq, Eq, Structural)]
pub struct TableShape {
    pub num_rows: usize,
    pub num_columns: usize,
}

/// The reply to a change of filters.
#[derive(Clone, Copy, Debug, PartialEq, Eq, Structural)]
pub struct FilterResult {
    pub selected_num_rows: usize,
    pub had_errors: bool,
}

/// What a change of the source object means for the view.
#[derive(Clone, Copy, Debug, PartialEq, Eq, Structural)]
pub enum ChangeEvent {
    /// Values changed; the schema did not.
    DataUpdate,
    /// The schema was replaced.
    SchemaUpdate,
    /// The source object is gone; the session ends.
    Closed,
}

/// The state a client can query.
#[derive(Clone, Copy, Debug, PartialEq, Eq, Structural)]
pub struct TableState {
    pub table_shape: TableShape,
    pub table_unfiltered_shape: TableShape,
    pub num_row_filters: usize,
    pub num_sort_keys: usize,
    pub has_row_labels: bool,
}

/// One open table: the source snapshot, the client's filters and sort
/// keys, and the view derived from them.
pub struct ViewSession {
    table: DataTable,
    filters: Vec<RowFilter>,
    sort_keys: Vec<SortKey>,
    view: Vec<usize>,
    closed: bool,
}

impl ViewSession {
    pub closed spec fn table(&self) -> DataTable {
        self.table
    }

    pub closed spec fn filters(&self) -> Seq<RowFilter> {
        self.filters@
    }

    pub closed spec fn keys(&self) -> Seq<SortKey> {
        self.sort_keys@
    }

    /// The view: source row indices, in display order.
    pub closed spec fn view(&self) -> Seq<usize> {
        self.view@
    }

    pub closed spec fn is_closed(&self) -> bool {
        self.closed
    }

    /// The view is derived from the current table, filters and keys, and
    /// each filter's validity reflects the current table.
    pub open spec fn wf(&self) -> bool {
        &&& self.table().wf()
        &&& is_view(self.table(), self.filters(), self.keys(), self.view())
        &&& forall|i: int|
            0 <= i < self.filters().len() ==> status_matches(
                #[trigger] self.filters()[i],
                filter_issue(self.table(), self.filters()[i]),
            )
    }

    /// Every row of the view is a row of the table.
    pub proof fn lemma_view_rows_bounded(&self)
        requires
            self.wf(),
        ensures
            forall|i: int| 0 <= i < self.view().len() ==> #[trigger] self.view()[i] < self.table().num_rows,
    {
        assert forall|i: int| 0 <= i < self.view().len() implies #[trigger] self.view()[i]
            < self.table().num_rows by {
            let row = self.view()[i];
            assert(self.view().contains(row));
            let sel_rows = selected_rows(self.table(), self.filters());
            assert(sel_rows.contains(row));
            let m = choose|m: int| 0 <= m < sel_rows.len() && sel_rows[m] == row;
            lemma_selected_rows_bounded(self.table(), self.filters(), m);
        }
    }

    /// Computes the view of a table from scratch.
    fn build_view(t: &DataTable, fs: &Vec<RowFilter>, ks: &Vec<SortKey>) -> (r: (
        Vec<usize>,
        Vec<Option<FilterIssue>>,
    ))
        requires
            t.wf(),
        ensures
            is_view(*t, fs@, ks@, r.0@),
            r.0@.len() == selected_rows(*t, fs@).len(),
            r.1@.len() == fs@.len(),
            forall|i: int| 0 <= i < fs@.len() ==> #[trigger] r.1@[i] == filter_issue(*t, fs@[i]),
    {
        let (rows, issues) = evaluate_filters(t, fs);
        proof {
            lemma_selected_below(*t, fs@, t.num_rows as int);
        }
        let v = sort_rows(t, ks, &rows);
        (v, issues)
    }

    /// Opens a view on a table, with no filters and no sort keys.
    pub fn new(table: DataTable) -> (r: Self)
        requires
            table.wf(),
        ensures
            r.wf(),
            r.table() == table,
            r.filters().len() == 0,
            r.keys().len() == 0,
            !r.is_closed(),
    {
        let filters: Vec<RowFilter> = Vec::new();
        let sort_keys: Vec<SortKey> = Vec::new();
        let (view, _) = Self::build_view(&table, &filters, &sort_keys);
        ViewSession { table, filters, sort_keys, view, closed: false }
    }

    /// Replaces the filter list; each filter is checked against the current
    /// table and keeps its validity and message. Returns how many rows the
    /// view now holds and whether any filter is invalid.
    pub fn set_row_filters(&mut self, filters: Vec<RowFilter>) -> (r: FilterResult)
        requires
            old(self).wf(),
        ensures
            final(self).wf(),
            final(self).table() == old(self).table(),
            final(self).keys() == old(self).keys(),
            final(self).is_closed() == old(self).is_closed(),
            final(self).filters().len() == filters@.len(),
            forall|i: int|
                0 <= i < filters@.len() ==> same_filter(#[trigger] final(self).filters()[i], filters@[i]),
            r.selected_num_rows == selected_rows(old(self).table(), final(self).filters()).len(),
            r.had_errors == exists|i: int|
                0 <= i < filters@.len() && (#[trigger] filter_issue(old(self).table(), filters@[i])) is Some,
    {
        let (_, issues) = evaluate_filters(&self.table, &filters);
        let had_errors = Self::any_issue(&issues);
        proof {
            if had_errors {
                let w = choose|i: int| 0 <= i < issues@.len() && (#[trigger] issues@[i]) is Some;
                assert(filter_issue(self.table, filters@[w]) is Some);
            } else {
                assert forall|i: int| 0 <= i < filters@.len() implies (#[trigger] filter_issue(
                    self.table,
                    filters@[i],
                )) is None by {
                    assert(issues@[i] is None);
                }
            }
        }
        let stored = annotate(filters, &issues);
        proof {
            assert forall|i: int| 0 <= i < stored@.len() implies #[trigger] filter_issue(self.table, stored@[i])
                == filter_issue(self.table, filters@[i]) by {
                assert(same_filter(stored@[i], filters@[i]));
            }
        }
        let (view, _) = Self::build_view(&self.table, &stored, &self.sort_keys);
        self.filters = stored;
        self.view = view;
        FilterResult { selected_num_rows: self.view.len(), had_errors }
    }

    /// Replaces the sort keys and reorders the view.
    pub fn set_sort_columns(&mut self, sort_keys: Vec<SortKey>)
        requires
            old(self).wf(),
        ensures
            final(self).wf(),
            final(self).table() == old(self).table(),
            final(self).filters() == old(self).filters(),
            final(self).keys() == sort_keys@,
            final(self).is_closed() == old(self).is_closed(),
    {
        let (view, _) = Self::build_view(&self.table, &self.filters, &sort_keys);
        self.sort_keys = sort_keys;
        self.view = view;
    }

    /// The filters, each with the validity found against the current table.
    pub fn row_filters(&self) -> (r: &Vec<RowFilter>)
        ensures
            r@ == self.filters(),
    {
        &self.filters
    }

    pub fn sort_keys(&self) -> (r: &Vec<SortKey>)
        ensures
            r@ == self.keys(),
    {
        &self.sort_keys
    }

    /// The source row shown at each position of the view.
    pub fn view_rows(&self) -> (r: &Vec<usize>)
        ensures
            r@ == self.view(),
    {
        &self.view
    }

    pub fn source(&self) -> (r: &DataTable)
        ensures
            *r == self.table(),
    {
        &self.table
    }

    pub fn closed(&self) -> (r: bool)
        ensures
            r == self.is_closed(),
    {
        self.closed
    }

    /// Shapes of the view and of the unfiltered table, and what is set.
    pub fn get_state(&self) -> (r: TableState)
        requires
            self.wf(),
        ensures
            r.table_shape.num_rows == self.view().len(),
            r.table_shape.num_columns == self.table().columns@.len(),
            r.table_unfiltered_shape.num_rows == self.table().num_rows,
            r.table_unfiltered_shape.num_columns == self.table().columns@.len(),
            r.num_row_filters == self.filters().len(),
            r.num_sort_keys == self.keys().len(),
            r.has_row_labels == self.table().row_labels is Some,
    {
        let ncol = self.table.columns.len();
        TableState {
            table_shape: TableShape { num_rows: self.view.len(), num_columns: ncol },
            table_unfiltered_shape: TableShape { num_rows: self.table.num_rows, num_columns: ncol },
            num_row_filters: self.filters.len(),
            num_sort_keys: self.sort_keys.len(),
            has_row_labels: self.table.row_labels.is_some(),
        }
    }

    /// Reconciles the session with a fresh snapshot of the source (`None`
    /// when the source object is gone). Filters and sort keys are kept and
    /// checked again against the new table; the view is rebuilt. Returns the
    /// event to send, if any. A closed session ignores every later change.
#[verifier::rlimit(40)]
    pub fn on_source_change(&mut self, fresh: Option<DataTable>) -> (r: Option<ChangeEvent>)
        requires
            old(self).wf(),
            fresh is Some ==> fresh->0.wf(),
        ensures
            final(self).wf(),
            old(self).is_closed() ==> r is None && final(self).is_closed() && final(self).table()
                == old(self).table(),
            !old(self).is_closed() ==> r == classify(old(self).table(), fresh),
            !old(self).is_closed() ==> (final(self).is_closed() <==> fresh is None),
            !old(self).is_closed() && fresh is Some ==> final(self).table() == fresh->0,
            fresh is None ==> final(self).table() == old(self).table(),
            final(self).keys() == old(self).keys(),
            final(self).filters().len() == old(self).filters().len(),
            forall|i: int|
                0 <= i < old(self).filters().len() ==> same_filter(
                    #[trigger] final(self).filters()[i],
                    old(self).filters()[i],
                ),
    {
        if self.closed {
            proof {
                assert forall|i: int| 0 <= i < self.filters@.len() implies same_filter(
                    #[trigger] self.filters@[i],
                    self.filters@[i],
                ) by {}
            }
            return None;
        }
        let t = match fresh {
            None => {
                self.closed = true;
                proof {
                    assert forall|i: int| 0 <= i < self.filters@.len() implies same_filter(
                        #[trigger] self.filters@[i],
                        self.filters@[i],
                    ) by {}
                }
                return Some(ChangeEvent::Closed);
            },
            Some(t) => t,
        };
        let event = if !same_schema_exec(&self.table, &t) {
            Some(ChangeEvent::SchemaUpdate)
        } else if !same_data_exec(&self.table, &t) {
            Some(ChangeEvent::DataUpdate)
        } else {
            None
        };
        let mut fs: Vec<RowFilter> = Vec::new();
        std::mem::swap(&mut fs, &mut self.filters);
        let (_, issues) = evaluate_filters(&t, &fs);
        let stored = annotate(fs, &issues);
        proof {
            assert forall|i: int| 0 <= i < stored@.len() implies #[trigger] filter_issue(t, stored@[i])
                == filter_issue(t, fs@[i]) by {
                assert(same_filter(stored@[i], fs@[i]));
            }
        }
        let (view, _) = Self::build_view(&t, &stored, &self.sort_keys);
        self.table = t;
        self.filters = stored;
        self.view = view;
        event
    }

    fn any_issue(issues: &Vec<Option<FilterIssue>>) -> (r: bool)
        ensures
            r == exists|i: int| 0 <= i < issues@.len() && (#[trigger] issues@[i]) is Some,
    {
        let mut i: usize = 0;
        while i < issues.len()
            invariant
                0 <= i <= issues@.len(),
                forall|k: int| 0 <= k < i ==> (#[trigger] issues@[k]) is None,
            decreases issues.len() - i,
        {
            if issues[i].is_some() {
                return true;
            }
            i = i + 1;
        }
        false
    }
}

} // verus!
