//! The sort engine: a stable multi-key order over source rows.
use vstd::prelude::*;
use crate::table::{CellValue, DataTable};
use crate::text::{chars_of, compare_chars, text_cmp};
use crate::filter::{bool_int, sign};

verus! {

/// One sort key: a column and a direction.
#[derive(Clone, Copy, Debug, PartialEq, Eq, Structural)]
pub struct SortKey {
    pub column_index: usize,
    pub ascending: bool,
}

/// Cells order by kind of value first; missing and special values come
/// after every value.
pub open spec fn variant_rank(c: CellValue) -> int {
    match c {
        CellValue::Number(_) => 0,
        CellValue::Text(_) => 1,
        CellValue::Boolean(_) => 2,
        CellValue::Temporal(_) => 3,
        _ => 4,
    }
}

pub open spec fn has_order_value(c: CellValue) -> bool {
    variant_rank(c) < 4
}

/// The natural order of two cells that hold values: numeric,
/// lexicographic for text, `false` before `true`, chronological.
pub open spec fn value_cmp(x: CellValue, y: CellValue) -> int {
    if variant_rank(x) != variant_rank(y) {
        sign(variant_rank(x) - variant_rank(y))
    } else {
        match (x, y) {
            (CellValue::Number(v), CellValue::Number(w)) => sign(v - w),
            (CellValue::Text(v), CellValue::Text(w)) => text_cmp(v@, w@),
            (CellValue::Boolean(v), CellValue::Boolean(w)) => bool_int(v) - bool_int(w),
            (CellValue::Temporal(v), CellValue::Temporal(w)) => sign(v - w),
            _ => 0,
        }
    }
}

/// The order of two cells under one key direction: a descending key
/// reverses the order of values, and cells without a value stay last.
pub open spec fn cell_order(x: CellValue, y: CellValue, ascending: bool) -> int {
    if !has_order_value(x) && !has_order_value(y) {
        0
    } else if !has_order_value(x) {
        1
    } else if !has_order_value(y) {
        -1
    } else if ascending {
        value_cmp(x, y)
    } else {
        -value_cmp(x, y)
    }
}

/// How rows `a` and `b` compare under one key; a key past the last column
/// does not distinguish rows.
pub open spec fn key_cmp(t: DataTable, k: SortKey, a: int, b: int) -> int {
    if k.column_index < t.columns@.len() {
        cell_order(t.cell(k.column_index as int, a), t.cell(k.column_index as int, b), k.ascending)
    } else {
        0
    }
}

/// The first key that distinguishes the rows decides.
pub open spec fn keys_cmp(t: DataTable, ks: Seq<SortKey>, a: int, b: int) -> int
    decreases ks.len(),
{
    if ks.len() == 0 {
        0
    } else if key_cmp(t, ks[0], a, b) != 0 {
        key_cmp(t, ks[0], a, b)
    } else {
        keys_cmp(t, ks.drop_first(), a, b)
    }
}

/// Keys first, then source order.
pub open spec fn row_cmp(t: DataTable, ks: Seq<SortKey>, a: int, b: int) -> int {
    if keys_cmp(t, ks, a, b) != 0 {
        keys_cmp(t, ks, a, b)
    } else {
        sign(a - b)
    }
}

pub open spec fn row_before(t: DataTable, ks: Seq<SortKey>, a: int, b: int) -> bool {
    row_cmp(t, ks, a, b) < 0
}

/// Every row of `s` comes before every later row of `s`.
pub open spec fn sorted_by(t: DataTable, ks: Seq<SortKey>, s: Seq<usize>) -> bool {
    forall|i: int, j: int|
        0 <= i < j < s.len() ==> row_before(t, ks, #[trigger] s[i] as int, #[trigger] s[j] as int)
}

/// `s` holds the rows of `rows`, each once.
pub open spec fn same_rows(s: Seq<usize>, rows: Seq<usize>) -> bool {
    &&& s.len() == rows.len()
    &&& s.no_duplicates()
    &&& forall|x: usize| s.contains(x) <==> rows.contains(x)
}

/// A three-way comparison: its values are -1, 0 and 1.
pub open spec fn unit(c: int) -> bool {
    c == -1 || c == 0 || c == 1
}

pub proof fn lemma_text_cmp_props(a: Seq<char>, b: Seq<char>)
    ensures
        unit(text_cmp(a, b)),
        text_cmp(a, b) == -text_cmp(b, a),
        text_cmp(a, b) == 0 <==> a == b,
    decreases a.len(),
{
    if a.len() > 0 && b.len() > 0 && a[0] == b[0] {
        lemma_text_cmp_props(a.drop_first(), b.drop_first());
        if a.drop_first() == b.drop_first() {
            assert(a =~= seq![a[0]] + a.drop_first());
            assert(b =~= seq![b[0]] + b.drop_first());
        }
    }
    if a.len() == 0 && b.len() == 0 {
        assert(a =~= b);
    }
}

pub proof fn lemma_text_cmp_trans(a: Seq<char>, b: Seq<char>, c: Seq<char>)
    requires
        text_cmp(a, b) <= 0,
        text_cmp(b, c) <= 0,
    ensures
        text_cmp(a, c) <= 0,
        (text_cmp(a, b) < 0 || text_cmp(b, c) < 0) ==> text_cmp(a, c) < 0,
    decreases a.len(),
{
    lemma_text_cmp_props(a, b);
    lemma_text_cmp_props(b, c);
    lemma_text_cmp_props(a, c);
    if a.len() > 0 && b.len() > 0 && c.len() > 0 && a[0] == b[0] && b[0] == c[0] {
        lemma_text_cmp_trans(a.drop_first(), b.drop_first(), c.drop_first());
    }
}

proof fn lemma_value_cmp_props(x: CellValue, y: CellValue)
    ensures
        unit(value_cmp(x, y)),
        value_cmp(x, y) == -value_cmp(y, x),
{
    if let (CellValue::Text(v), CellValue::Text(w)) = (x, y) {
        lemma_text_cmp_props(v@, w@);
    }
}

proof fn lemma_value_cmp_trans(x: CellValue, y: CellValue, z: CellValue)
    requires
        value_cmp(x, y) <= 0,
        value_cmp(y, z) <= 0,
    ensures
        value_cmp(x, z) <= 0,
        (value_cmp(x, y) < 0 || value_cmp(y, z) < 0) ==> value_cmp(x, z) < 0,
{
    lemma_value_cmp_props(x, y);
    lemma_value_cmp_props(y, z);
    lemma_value_cmp_props(x, z);
    if let (CellValue::Text(u), CellValue::Text(v), CellValue::Text(w)) = (x, y, z) {
        lemma_text_cmp_trans(u@, v@, w@);
    }
}

proof fn lemma_cell_order_props(x: CellValue, y: CellValue, asc: bool)
    ensures
        unit(cell_order(x, y, asc)),
        cell_order(x, y, asc) == -cell_order(y, x, asc),
{
    lemma_value_cmp_props(x, y);
}

proof fn lemma_cell_order_trans(x: CellValue, y: CellValue, z: CellValue, asc: bool)
    requires
        cell_order(x, y, asc) <= 0,
        cell_order(y, z, asc) <= 0,
    ensures
        cell_order(x, z, asc) <= 0,
        (cell_order(x, y, asc) < 0 || cell_order(y, z, asc) < 0) ==> cell_order(x, z, asc) < 0,
{
    lemma_cell_order_props(x, y, asc);
    lemma_cell_order_props(y, z, asc);
    lemma_cell_order_props(x, z, asc);
    if has_order_value(x) && has_order_value(y) && has_order_value(z) {
        if asc {
            lemma_value_cmp_trans(x, y, z);
        } else {
            lemma_value_cmp_props(x, y);
            lemma_value_cmp_props(y, z);
            lemma_value_cmp_props(x, z);
            lemma_value_cmp_trans(z, y, x);
        }
    }
}

proof fn lemma_keys_cmp_props(t: DataTable, ks: Seq<SortKey>, a: int, b: int)
    ensures
        unit(keys_cmp(t, ks, a, b)),
        keys_cmp(t, ks, a, b) == -keys_cmp(t, ks, b, a),
    decreases ks.len(),
{
    if ks.len() > 0 {
        if ks[0].column_index < t.columns@.len() {
            let c = ks[0].column_index as int;
            lemma_cell_order_props(t.cell(c, a), t.cell(c, b), ks[0].ascending);
        }
        lemma_keys_cmp_props(t, ks.drop_first(), a, b);
    }
}

proof fn lemma_keys_cmp_trans(t: DataTable, ks: Seq<SortKey>, a: int, b: int, c: int)
    requires
        keys_cmp(t, ks, a, b) <= 0,
        keys_cmp(t, ks, b, c) <= 0,
    ensures
        keys_cmp(t, ks, a, c) <= 0,
        (keys_cmp(t, ks, a, b) < 0 || keys_cmp(t, ks, b, c) < 0) ==> keys_cmp(t, ks, a, c) < 0,
    decreases ks.len(),
{
    if ks.len() > 0 {
        let k = ks[0];
        if k.column_index < t.columns@.len() {
            let col = k.column_index as int;
            lemma_cell_order_props(t.cell(col, a), t.cell(col, b), k.ascending);
            lemma_cell_order_props(t.cell(col, b), t.cell(col, c), k.ascending);
            lemma_cell_order_props(t.cell(col, a), t.cell(col, c), k.ascending);
            if key_cmp(t, k, a, b) <= 0 && key_cmp(t, k, b, c) <= 0 {
                lemma_cell_order_trans(t.cell(col, a), t.cell(col, b), t.cell(col, c), k.ascending);
            }
            if key_cmp(t, k, a, b) == 0 && key_cmp(t, k, b, c) == 0 {
                lemma_keys_cmp_trans(t, ks.drop_first(), a, b, c);
            }
        } else {
            lemma_keys_cmp_trans(t, ks.drop_first(), a, b, c);
        }
    }
}

/// Row order is a strict total order: of two distinct rows exactly one
/// comes first, and it is transitive.
pub proof fn lemma_row_order(t: DataTable, ks: Seq<SortKey>, a: int, b: int, c: int)
    ensures
        a != b ==> (row_before(t, ks, a, b) != row_before(t, ks, b, a)),
        !row_before(t, ks, a, a),
        row_before(t, ks, a, b) && row_before(t, ks, b, c) ==> row_before(t, ks, a, c),
{
    lemma_keys_cmp_props(t, ks, a, b);
    lemma_keys_cmp_props(t, ks, b, c);
    lemma_keys_cmp_props(t, ks, a, c);
    lemma_keys_cmp_props(t, ks, a, a);
    if row_before(t, ks, a, b) && row_before(t, ks, b, c) {
        lemma_keys_cmp_trans(t, ks, a, b, c);
    }
}

fn rank_of(c: &CellValue) -> (r: u8)
    ensures
        r as int == variant_rank(*c),
{
    match c {
        CellValue::Number(_) => 0,
        CellValue::Text(_) => 1,
        CellValue::Boolean(_) => 2,
        CellValue::Temporal(_) => 3,
        _ => 4,
    }
}

fn value_cmp_exec(x: &CellValue, y: &CellValue) -> (r: i8)
    ensures
        r as int == value_cmp(*x, *y),
{
    let rx = rank_of(x);
    let ry = rank_of(y);
    if rx < ry {
        return -1;
    }
    if rx > ry {
        return 1;
    }
    match (x, y) {
        (CellValue::Number(v), CellValue::Number(w)) => if *v < *w {
            -1
        } else if *v > *w {
            1
        } else {
            0
        },
        (CellValue::Text(v), CellValue::Text(w)) => {
            let a = chars_of(v.as_str());
            let b = chars_of(w.as_str());
            compare_chars(&a, &b)
        },
        (CellValue::Boolean(v), CellValue::Boolean(w)) => {
            let a: i8 = if *v { 1 } else { 0 };
            let b: i8 = if *w { 1 } else { 0 };
            a - b
        },
        (CellValue::Temporal(v), CellValue::Temporal(w)) => if *v < *w {
            -1
        } else if *v > *w {
            1
        } else {
            0
        },
        _ => 0,
    }
}

/// Compares two cells under one key direction.
pub fn cell_order_exec(x: &CellValue, y: &CellValue, ascending: bool) -> (r: i8)
    ensures
        r as int == cell_order(*x, *y, ascending),
{
    let hx = rank_of(x) < 4;
    let hy = rank_of(y) < 4;
    if !hx && !hy {
        0
    } else if !hx {
        1
    } else if !hy {
        -1
    } else {
        let c = value_cmp_exec(x, y);
        proof {
            lemma_value_cmp_props(*x, *y);
        }
        if ascending {
            c
        } else {
            -c
        }
    }
}

/// Compares two rows: keys in order, then source order.
pub fn compare_rows(t: &DataTable, ks: &Vec<SortKey>, a: usize, b: usize) -> (r: i8)
    requires
        t.wf(),
        a < t.num_rows,
        b < t.num_rows,
    ensures
        r as int == row_cmp(*t, ks@, a as int, b as int),
{
    let mut i: usize = 0;
    assert(ks@.skip(0) =~= ks@);
    while i < ks.len()
        invariant
            0 <= i <= ks@.len(),
            t.wf(),
            a < t.num_rows,
            b < t.num_rows,
            keys_cmp(*t, ks@, a as int, b as int) == keys_cmp(
                *t,
                ks@.skip(i as int),
                a as int,
                b as int,
            ),
        decreases ks.len() - i,
    {
        let k = ks[i];
        assert(ks@.skip(i as int)[0] == k);
        assert(ks@.skip(i as int).drop_first() =~= ks@.skip(i + 1));
        if k.column_index < t.columns.len() {
            let col = &t.columns[k.column_index];
            assert(col.values@.len() == t.num_rows);
            let c = cell_order_exec(&col.values[a], &col.values[b], k.ascending);
            if c != 0 {
                return c;
            }
        }
        i = i + 1;
    }
    assert(ks@.skip(ks@.len() as int) =~= Seq::<SortKey>::empty());
    if a < b {
        -1
    } else if a > b {
        1
    } else {
        0
    }
}

/// Orders rows by the sort keys; ties keep source order. The result holds
/// the given rows, each once, every one before all that follow it.
#[verifier::rlimit(40)]
pub fn sort_rows(t: &DataTable, ks: &Vec<SortKey>, rows: &Vec<usize>) -> (r: Vec<usize>)
    requires
        t.wf(),
        rows@.no_duplicates(),
        forall|i: int| 0 <= i < rows@.len() ==> #[trigger] rows@[i] < t.num_rows,
    ensures
        same_rows(r@, rows@),
        sorted_by(*t, ks@, r@),
{
    let mut out: Vec<usize> = Vec::new();
    let mut i: usize = 0;
    while i < rows.len()
        invariant
            0 <= i <= rows@.len(),
            t.wf(),
            rows@.no_duplicates(),
            forall|k: int| 0 <= k < rows@.len() ==> #[trigger] rows@[k] < t.num_rows,
            same_rows(out@, rows@.subrange(0, i as int)),
            sorted_by(*t, ks@, out@),
            forall|k: int| 0 <= k < out@.len() ==> #[trigger] out@[k] < t.num_rows,
        decreases rows.len() - i,
    {
        let x = rows[i];
        let mut j: usize = out.len();
        while j > 0 && compare_rows(t, ks, x, out[j - 1]) < 0
            invariant
                0 <= j <= out@.len(),
                t.wf(),
                x < t.num_rows,
                forall|k: int| 0 <= k < out@.len() ==> #[trigger] out@[k] < t.num_rows,
                sorted_by(*t, ks@, out@),
                forall|k: int| j <= k < out@.len() ==> row_before(*t, ks@, x as int, #[trigger] out@[k] as int),
            decreases j,
        {
            proof {
                assert forall|k: int| j - 1 <= k < out@.len() implies row_before(
                    *t,
                    ks@,
                    x as int,
                    #[trigger] out@[k] as int,
                ) by {
                    if k > j - 1 {
                        assert(row_before(*t, ks@, out@[j - 1] as int, out@[k] as int));
                        lemma_row_order(*t, ks@, x as int, out@[j - 1] as int, out@[k] as int);
                    }
                }
            }
            j = j - 1;
        }
        let ghost old_out = out@;
        let ghost pre = rows@.subrange(0, i as int);
        assert(rows@.subrange(0, i + 1) =~= pre.push(x));
        assert(!pre.contains(x)) by {
            if pre.contains(x) {
                let k = choose|k: int| 0 <= k < pre.len() && pre[k] == x;
                assert(rows@[k] == rows@[i as int]);
            }
        }
        proof {
            if j > 0 {
                let y = old_out[j - 1];
                assert(y != x);
                lemma_row_order(*t, ks@, x as int, y as int, y as int);
            }
        }
        out.insert(j, x);
        proof {
            assert(out@ =~= old_out.insert(j as int, x));
            assert forall|a: int, b: int| 0 <= a < b < out@.len() implies row_before(
                *t,
                ks@,
                #[trigger] out@[a] as int,
                #[trigger] out@[b] as int,
            ) by {
                if a < j && b == j {
                    if a < j - 1 {
                        assert(row_before(*t, ks@, old_out[a] as int, old_out[j - 1] as int));
                        lemma_row_order(*t, ks@, old_out[a] as int, old_out[j - 1] as int, x as int);
                    }
                } else if a == j {
                    assert(row_before(*t, ks@, x as int, old_out[b - 1] as int));
                } else if a < j && b > j {
                    assert(row_before(*t, ks@, old_out[a] as int, old_out[b - 1] as int));
                } else if a > j {
                    assert(row_before(*t, ks@, old_out[a - 1] as int, old_out[b - 1] as int));
                } else {
                    assert(row_before(*t, ks@, old_out[a] as int, old_out[b] as int));
                }
            }
            assert forall|y: usize| out@.contains(y) <==> rows@.subrange(0, i + 1).contains(y) by {
                if out@.contains(y) {
                    let k = choose|k: int| 0 <= k < out@.len() && out@[k] == y;
                    if k < j {
                        assert(old_out[k] == y);
                        assert(old_out.contains(y));
                    } else if k > j {
                        assert(old_out[k - 1] == y);
                        assert(old_out.contains(y));
                    }
                    assert(pre.push(x).contains(y)) by {
                        if y != x {
                            let m = choose|m: int| 0 <= m < pre.len() && pre[m] == y;
                            assert(pre.push(x)[m] == y);
                        } else {
                            assert(pre.push(x)[pre.len() as int] == x);
                        }
                    }
                }
                if rows@.subrange(0, i + 1).contains(y) {
                    let m = choose|m: int| 0 <= m < pre.len() + 1 && pre.push(x)[m] == y;
                    if m < pre.len() {
                        assert(pre.contains(y));
                        assert(old_out.contains(y));
                        let k = choose|k: int| 0 <= k < old_out.len() && old_out[k] == y;
                        if k < j {
                            assert(out@[k] == y);
                        } else {
                            assert(out@[k + 1] == y);
                        }
                    } else {
                        assert(out@[j as int] == x);
                    }
                }
            }
            assert forall|k: int| 0 <= k < out@.len() implies #[trigger] out@[k] < t.num_rows by {
                if k < j {
                    assert(out@[k] == old_out[k]);
                } else if k > j {
                    assert(out@[k] == old_out[k - 1]);
                }
            }
            assert(out@.no_duplicates()) by {
                assert forall|a: int, b: int| 0 <= a < b < out@.len() implies out@[a] != out@[b] by {
                    lemma_row_order(*t, ks@, out@[a] as int, out@[b] as int, out@[b] as int);
                }
            }
        }
        i = i + 1;
    }
    assert(rows@.subrange(0, rows@.len() as int) =~= rows@);
    out
}

} // verus!
