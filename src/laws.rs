//! Properties that relate several parts of the engine, stated over the
//! spec functions that the executable contracts use, and proved.
use vstd::prelude::*;
use crate::filter::{
    filter_issue, filter_keeps, has_value, is_member, kind_keeps, resolve, selected,
    selected_below, selected_rows, FilterCondition, FilterKind, RowFilter,
};
use crate::profile::count_missing;
use crate::sort::{key_cmp, keys_cmp, lemma_row_order, row_before, same_rows, sorted_by, SortKey};
use crate::table::{CellValue, DataTable};
use crate::view::{classify, is_view, issue_message, same_data, same_schema, ChangeEvent};

verus! {

/// Filters combine left to right: with `[a, b]` where `b` joins by OR, a
/// row is selected when `a` or `b` keeps it; appending `c` joined by AND
/// then keeps only the rows that `c` keeps too.
pub proof fn lemma_filter_chaining(t: DataTable, a: RowFilter, b: RowFilter, c: RowFilter, row: int)
    requires
        b.condition == FilterCondition::Or,
        c.condition == FilterCondition::And,
    ensures
        selected(t, seq![a, b], row) == (filter_keeps(t, a, row) || filter_keeps(t, b, row)),
        selected(t, seq![a, b, c], row) == ((filter_keeps(t, a, row) || filter_keeps(t, b, row))
            && filter_keeps(t, c, row)),
{
    reveal_with_fuel(crate::filter::mask_upto, 4);
    assert(seq![a, b][0] == a && seq![a, b][1] == b);
    assert(seq![a, b, c][0] == a && seq![a, b, c][1] == b && seq![a, b, c][2] == c);
}

/// The rows below `n`, in order.
pub open spec fn all_rows(n: int) -> Seq<usize> {
    Seq::new(n as nat, |i: int| i as usize)
}

proof fn lemma_all_selected(t: DataTable, fs: Seq<RowFilter>, n: int)
    requires
        0 <= n <= t.num_rows,
        forall|r: int| 0 <= r < n ==> #[trigger] selected(t, fs, r),
    ensures
        selected_below(t, fs, n) == all_rows(n),
    decreases n,
{
    if n > 0 {
        lemma_all_selected(t, fs, n - 1);
        assert(selected(t, fs, n - 1));
        assert(selected_below(t, fs, n) =~= all_rows(n));
    } else {
        assert(selected_below(t, fs, n) =~= all_rows(n));
    }
}

/// A filter that cannot be applied (for instance a comparison whose
/// literal does not parse as the column's type) keeps every row: alone, it
/// selects the whole table; the message it is reported with is not empty.
pub proof fn lemma_invalid_filter_fails_open(t: DataTable, f: RowFilter)
    requires
        filter_issue(t, f) is Some,
    ensures
        selected_rows(t, seq![f]) == all_rows(t.num_rows as int),
        selected_rows(t, seq![f]).len() == t.num_rows,
        issue_message(filter_issue(t, f)->0).len() > 0,
{
    reveal_strlit("the filtered column no longer exists");
    reveal_strlit("the filter does not apply to the column's type");
    reveal_strlit("a value does not parse as the column's type");
    reveal_strlit("the search term is not a valid regular expression");
    assert forall|r: int| 0 <= r < t.num_rows implies #[trigger] selected(t, seq![f], r) by {
        reveal_with_fuel(crate::filter::mask_upto, 2);
        assert(seq![f][0] == f);
    }
    lemma_all_selected(t, seq![f], t.num_rows as int);
}

/// Every cell of column `c` is missing or holds a value of the column's
/// type.
pub open spec fn typed_column(t: DataTable, c: int) -> bool {
    forall|r: int|
        0 <= r < t.num_rows ==> (#[trigger] t.cell(c, r)) is Missing || has_value(
            t.cell(c, r),
            t.columns@[c].kind,
        )
}

/// `inc` and `exc` are the inclusive and exclusive forms of one set
/// membership filter.
pub open spec fn membership_pair(inc: RowFilter, exc: RowFilter) -> bool {
    &&& inc.column_schema.column_name@ == exc.column_schema.column_name@
    &&& inc.kind matches FilterKind::SetMembership { values: vi, inclusive: true }
    &&& exc.kind matches FilterKind::SetMembership { values: ve, inclusive: false }
    &&& inc.kind->values@ == exc.kind->SetMembership_values@
}

proof fn lemma_membership_counts(t: DataTable, inc: RowFilter, exc: RowFilter, c: int, n: int)
    requires
        t.wf(),
        0 <= n <= t.num_rows,
        membership_pair(inc, exc),
        filter_issue(t, inc) is None,
        filter_issue(t, exc) is None,
        resolve(t, inc) == Some(c),
        resolve(t, exc) == Some(c),
        typed_column(t, c),
    ensures
        selected_below(t, seq![inc], n).len() + selected_below(t, seq![exc], n).len() == n
            - count_missing(t.columns@[c].values@.subrange(0, n)),
    decreases n,
{
    let vals = t.columns@[c].values@;
    if n > 0 {
        lemma_membership_counts(t, inc, exc, c, n - 1);
        assert(vals.subrange(0, n).drop_last() =~= vals.subrange(0, n - 1));
        reveal_with_fuel(crate::filter::mask_upto, 2);
        assert(seq![inc][0] == inc);
        assert(seq![exc][0] == exc);
        let cell = t.cell(c, n - 1);
        assert(vals.subrange(0, n).last() == cell);
        assert(selected(t, seq![inc], n - 1) == filter_keeps(t, inc, n - 1));
        assert(selected(t, seq![exc], n - 1) == filter_keeps(t, exc, n - 1));
    }
}

/// With a set membership filter on a column with `k` missing cells among
/// `n` rows, the inclusive and the exclusive form together select `n - k`
/// rows: missing cells are in neither.
pub proof fn lemma_membership_partition(t: DataTable, inc: RowFilter, exc: RowFilter)
    requires
        t.wf(),
        membership_pair(inc, exc),
        filter_issue(t, inc) is None,
        resolve(t, inc) is Some,
        typed_column(t, resolve(t, inc)->0),
    ensures
        selected_rows(t, seq![inc]).len() + selected_rows(t, seq![exc]).len() == t.num_rows
            - count_missing(t.columns@[resolve(t, inc)->0].values@),
{
    let c = resolve(t, inc)->0;
    assert(resolve(t, exc) == resolve(t, inc));
    assert(filter_issue(t, exc) is None);
    lemma_membership_counts(t, inc, exc, c, t.num_rows as int);
    assert(t.columns@[c].values@.subrange(0, t.num_rows as int) =~= t.columns@[c].values@);
}

/// Two sequences that hold the same rows, each sorted by the same keys,
/// are equal: the sort order is a strict total order.
pub proof fn lemma_sorted_unique(t: DataTable, ks: Seq<SortKey>, a: Seq<usize>, b: Seq<usize>)
    requires
        a.len() == b.len(),
        a.no_duplicates(),
        b.no_duplicates(),
        forall|x: usize| a.contains(x) <==> b.contains(x),
        sorted_by(t, ks, a),
        sorted_by(t, ks, b),
    ensures
        a == b,
    decreases a.len(),
{
    if a.len() == 0 {
        assert(a =~= b);
    } else {
        if a[0] != b[0] {
            assert(a.contains(b[0])) by {
                assert(b.contains(b[0]));
            }
            assert(b.contains(a[0])) by {
                assert(a.contains(a[0]));
            }
            let i = choose|i: int| 0 <= i < a.len() && a[i] == b[0];
            let j = choose|j: int| 0 <= j < b.len() && b[j] == a[0];
            assert(row_before(t, ks, a[0] as int, a[i] as int));
            assert(row_before(t, ks, b[0] as int, b[j] as int));
            lemma_row_order(t, ks, a[0] as int, b[0] as int, a[0] as int);
        }
        let a2 = a.drop_first();
        let b2 = b.drop_first();
        assert forall|x: usize| a2.contains(x) <==> b2.contains(x) by {
            if a2.contains(x) {
                let i = choose|i: int| 0 <= i < a2.len() && a2[i] == x;
                assert(a[i + 1] == x);
                assert(x != a[0]);
                assert(b.contains(x));
                let j = choose|j: int| 0 <= j < b.len() && b[j] == x;
                assert(j != 0);
                assert(b2[j - 1] == x);
            }
            if b2.contains(x) {
                let j = choose|j: int| 0 <= j < b2.len() && b2[j] == x;
                assert(b[j + 1] == x);
                assert(x != b[0]);
                assert(a.contains(x));
                let i = choose|i: int| 0 <= i < a.len() && a[i] == x;
                assert(i != 0);
                assert(a2[i - 1] == x);
            }
        }
        assert(sorted_by(t, ks, a2)) by {
            assert forall|i: int, j: int| 0 <= i < j < a2.len() implies row_before(
                t,
                ks,
                #[trigger] a2[i] as int,
                #[trigger] a2[j] as int,
            ) by {
                assert(a2[i] == a[i + 1] && a2[j] == a[j + 1]);
            }
        }
        assert(sorted_by(t, ks, b2)) by {
            assert forall|i: int, j: int| 0 <= i < j < b2.len() implies row_before(
                t,
                ks,
                #[trigger] b2[i] as int,
                #[trigger] b2[j] as int,
            ) by {
                assert(b2[i] == b[i + 1] && b2[j] == b[j + 1]);
            }
        }
        lemma_sorted_unique(t, ks, a2, b2);
        assert(a =~= b) by {
            assert forall|i: int| 0 <= i < a.len() implies a[i] == b[i] by {
                if i > 0 {
                    assert(a[i] == a2[i - 1] && b[i] == b2[i - 1]);
                }
            }
        }
    }
}

/// The view is a function of the table, the filters and the sort keys:
/// sorting again by the same keys gives the same row order.
pub proof fn lemma_view_unique(
    t: DataTable,
    fs: Seq<RowFilter>,
    ks: Seq<SortKey>,
    v1: Seq<usize>,
    v2: Seq<usize>,
)
    requires
        is_view(t, fs, ks, v1),
        is_view(t, fs, ks, v2),
    ensures
        v1 == v2,
{
    lemma_sorted_unique(t, ks, v1, v2);
}

/// A second key only reorders rows that tie on the first: where the first
/// key tells two rows apart, adding a key keeps their order.
pub proof fn lemma_second_key_refines(t: DataTable, k1: SortKey, k2: SortKey, a: int, b: int)
    requires
        key_cmp(t, k1, a, b) != 0,
    ensures
        row_before(t, seq![k1], a, b) == row_before(t, seq![k1, k2], a, b),
{
    reveal_with_fuel(keys_cmp, 3);
    assert(seq![k1][0] == k1);
    assert(seq![k1, k2][0] == k1);
}

/// In the views sorted by `[k1]` and by `[k1, k2]`, two rows that the
/// first key tells apart come in the same order.
pub proof fn lemma_second_key_keeps_order(
    t: DataTable,
    fs: Seq<RowFilter>,
    k1: SortKey,
    k2: SortKey,
    v1: Seq<usize>,
    v2: Seq<usize>,
    i: int,
    j: int,
    p: int,
    q: int,
)
    requires
        is_view(t, fs, seq![k1], v1),
        is_view(t, fs, seq![k1, k2], v2),
        0 <= i < j < v1.len(),
        0 <= p < v2.len(),
        0 <= q < v2.len(),
        v2[p] == v1[i],
        v2[q] == v1[j],
        key_cmp(t, k1, v1[i] as int, v1[j] as int) != 0,
    ensures
        p < q,
{
    assert(row_before(t, seq![k1], v1[i] as int, v1[j] as int));
    lemma_second_key_refines(t, k1, k2, v1[i] as int, v1[j] as int);
    assert(v1[i] != v1[j]);
    if q < p {
        assert(row_before(t, seq![k1, k2], v2[q] as int, v2[p] as int));
        lemma_row_order(t, seq![k1, k2], v1[i] as int, v1[j] as int, v1[i] as int);
    }
}

/// A snapshot that keeps the columns and their types but changes a value
/// is a data update; one that adds, removes, renames or retypes a column is
/// a schema update; a missing source closes the view.
pub proof fn lemma_change_classification(old: DataTable, new: DataTable)
    ensures
        same_schema(old, new) && !same_data(old, new) ==> classify(old, Some(new)) == Some(
            ChangeEvent::DataUpdate,
        ),
        !same_schema(old, new) ==> classify(old, Some(new)) == Some(ChangeEvent::SchemaUpdate),
        same_schema(old, new) && same_data(old, new) ==> classify(old, Some(new)) is None,
        classify(old, None) == Some(ChangeEvent::Closed),
{
}

} // verus!
