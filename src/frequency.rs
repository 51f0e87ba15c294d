//! Frequency tables: the most frequent values of a column, with the
//! count of the rest.
use vstd::prelude::*;
use crate::format::{format_cell, renders_as, FormatOptions, FormattedValue};
use crate::profile::{first_occurrence, readable, view_cells};
use crate::table::{CellValue, ColumnKind, DataTable};
use crate::view::{cell_same, cell_same_exec};

verus! {

/// How many cells hold the same value as `x`.
pub open spec fn count_same(cs: Seq<CellValue>, x: CellValue) -> nat
    decreases cs.len(),
{
    if cs.len() == 0 {
        0
    } else {
        count_same(cs.drop_last(), x) + if cell_same(cs.last(), x) {
            1nat
        } else {
            0
        }
    }
}

/// Cell `i` holds a value, the first time that value appears.
pub open spec fn distinct_at(cs: Seq<CellValue>, i: int) -> bool {
    0 <= i < cs.len() && !(cs[i] is Missing) && first_occurrence(cs, i)
}

/// The positions below `n` where a value first appears, in order.
pub open spec fn distinct_below(cs: Seq<CellValue>, n: int) -> Seq<usize>
    decreases n,
{
    if n <= 0 {
        Seq::empty()
    } else if distinct_at(cs, n - 1) {
        distinct_below(cs, n - 1).push((n - 1) as usize)
    } else {
        distinct_below(cs, n - 1)
    }
}

/// The value first seen at `i` is more frequent than the one first seen at
/// `j`, or as frequent and seen earlier.
pub open spec fn ranks_before(cs: Seq<CellValue>, i: int, j: int) -> bool {
    count_same(cs, cs[i]) > count_same(cs, cs[j]) || (count_same(cs, cs[i]) == count_same(
        cs,
        cs[j],
    ) && i < j)
}

/// The summed counts of the values first seen at `ps` and not listed in
/// `listed`.
pub open spec fn unlisted_sum(cs: Seq<CellValue>, ps: Seq<usize>, listed: Seq<usize>) -> int
    decreases ps.len(),
{
    if ps.len() == 0 {
        0
    } else {
        unlisted_sum(cs, ps.drop_last(), listed) + if listed.contains(ps.last()) {
            0
        } else {
            count_same(cs, cs[ps.last() as int]) as int
        }
    }
}

/// The most frequent values of a column: `first_positions[k]` is the view
/// position where the `k`-th value first appears, `counts[k]` how often it
/// appears, `values[k]` how it renders; `other_count` sums the counts of
/// the values left out.
#[derive(Debug)]
pub struct FrequencyTable {
    pub values: Vec<FormattedValue>,
    pub counts: Vec<usize>,
    pub first_positions: Vec<usize>,
    pub other_count: usize,
}

/// `f` lists the `limit` most frequent values of `cs` (fewer when there
/// are fewer), most frequent first, ties in order of first appearance.
pub open spec fn frequency_of(
    f: FrequencyTable,
    cs: Seq<CellValue>,
    limit: int,
    k: ColumnKind,
    o: FormatOptions,
) -> bool {
    let d = distinct_below(cs, cs.len() as int);
    let fp = f.first_positions@;
    &&& fp.len() == if limit < d.len() {
        limit
    } else {
        d.len() as int
    }
    &&& f.counts@.len() == fp.len()
    &&& f.values@.len() == fp.len()
    &&& forall|q: int| 0 <= q < fp.len() ==> d.contains(#[trigger] fp[q])
    &&& forall|a: int, b: int|
        0 <= a < b < fp.len() ==> ranks_before(cs, #[trigger] fp[a] as int, #[trigger] fp[b] as int)
    &&& forall|q: int, p: usize|
        #![trigger fp[q], d.contains(p)]
        0 <= q < fp.len() && d.contains(p) && !fp.contains(p) ==> ranks_before(
            cs,
            fp[q] as int,
            p as int,
        )
    &&& forall|q: int|
        0 <= q < fp.len() ==> #[trigger] f.counts@[q] == count_same(cs, cs[fp[q] as int])
    &&& forall|q: int|
        0 <= q < fp.len() ==> renders_as(
            #[trigger] f.values@[q],
            cs[fp[q] as int],
            k,
            o,
        )
    &&& f.other_count == unlisted_sum(cs, d, fp)
}

proof fn lemma_cell_same_equiv(a: CellValue, b: CellValue, c: CellValue)
    ensures
        cell_same(a, a),
        cell_same(a, b) ==> cell_same(b, a),
        cell_same(a, b) && cell_same(b, c) ==> cell_same(a, c),
{
}

proof fn lemma_distinct_below(cs: Seq<CellValue>, n: int)
    requires
        0 <= n <= cs.len(),
        cs.len() <= usize::MAX,
    ensures
        forall|q: int|
            0 <= q < distinct_below(cs, n).len() ==> distinct_at(
                cs,
                #[trigger] distinct_below(cs, n)[q] as int,
            ) && distinct_below(cs, n)[q] < n,
        forall|a: int, b: int|
            0 <= a < b < distinct_below(cs, n).len() ==> #[trigger] distinct_below(cs, n)[a]
                < #[trigger] distinct_below(cs, n)[b],
        forall|i: int| 0 <= i < n && distinct_at(cs, i) ==> distinct_below(cs, n).contains(i as usize),
    decreases n,
{
    if n > 0 {
        lemma_distinct_below(cs, n - 1);
        let p = distinct_below(cs, n - 1);
        if distinct_at(cs, n - 1) {
            let d = p.push((n - 1) as usize);
            assert(distinct_below(cs, n) == d);
            assert forall|q: int| 0 <= q < d.len() implies distinct_at(cs, #[trigger] d[q] as int)
                && d[q] < n by {
                if q < p.len() {
                    assert(d[q] == p[q]);
                }
            }
            assert forall|a: int, b: int| 0 <= a < b < d.len() implies #[trigger] d[a]
                < #[trigger] d[b] by {
                if b < p.len() {
                    assert(d[a] == p[a] && d[b] == p[b]);
                } else {
                    assert(d[a] == p[a]);
                    assert(d[b] == n - 1);
                }
            }
            assert forall|i: int| 0 <= i < n && distinct_at(cs, i) implies d.contains(i as usize) by {
                if i < n - 1 {
                    let q = choose|q: int| 0 <= q < p.len() && p[q] == i as usize;
                    assert(d[q] == i as usize);
                } else {
                    assert(d[p.len() as int] == i as usize);
                }
            }
        } else {
            assert(distinct_below(cs, n) == p);
            assert forall|i: int| 0 <= i < n && distinct_at(cs, i) implies p.contains(i as usize) by {
                if i == n - 1 {
                    assert(false);
                }
            }
        }
    }
}

pub open spec fn sum_nat(s: Seq<usize>) -> int
    decreases s.len(),
{
    if s.len() == 0 {
        0
    } else {
        sum_nat(s.drop_last()) + s.last()
    }
}

proof fn lemma_sum_nat_update(s: Seq<usize>, j: int, v: usize)
    requires
        0 <= j < s.len(),
    ensures
        sum_nat(s.update(j, v)) == sum_nat(s) - s[j] + v,
    decreases s.len(),
{
    if j < s.len() - 1 {
        lemma_sum_nat_update(s.drop_last(), j, v);
        assert(s.update(j, v).drop_last() =~= s.drop_last().update(j, v));
    } else {
        assert(s.update(j, v).drop_last() =~= s.drop_last());
    }
}

proof fn lemma_sum_nat_ge(s: Seq<usize>, j: int)
    requires
        0 <= j < s.len(),
    ensures
        s[j] <= sum_nat(s),
    decreases s.len(),
{
    lemma_sum_nat_nonneg(s.drop_last());
    if j < s.len() - 1 {
        lemma_sum_nat_ge(s.drop_last(), j);
    }
}

proof fn lemma_sum_nat_prefix(s: Seq<usize>, k: int)
    requires
        0 <= k <= s.len(),
    ensures
        sum_nat(s.subrange(0, k)) <= sum_nat(s),
    decreases s.len(),
{
    if k < s.len() {
        lemma_sum_nat_prefix(s.drop_last(), k);
        assert(s.drop_last().subrange(0, k) =~= s.subrange(0, k));
    } else {
        assert(s.subrange(0, k) =~= s);
    }
}

proof fn lemma_count_same_none(cs: Seq<CellValue>, x: CellValue)
    requires
        forall|k: int| 0 <= k < cs.len() ==> !cell_same(#[trigger] cs[k], x),
    ensures
        count_same(cs, x) == 0,
    decreases cs.len(),
{
    if cs.len() > 0 {
        lemma_count_same_none(cs.drop_last(), x);
    }
}

/// The tally of the first `i` cells: the positions where values first
/// appear, how often each appeared so far, every value present so far
/// represented.
pub open spec fn tally_ok(cs: Seq<CellValue>, d: Seq<usize>, counts: Seq<usize>, i: int) -> bool {
    &&& 0 <= i <= cs.len()
    &&& cs.len() <= usize::MAX
    &&& d == distinct_below(cs, i)
    &&& counts.len() == d.len()
    &&& forall|j: int|
        0 <= j < counts.len() ==> #[trigger] counts[j] == count_same(cs.subrange(0, i), cs[d[j] as int])
    &&& forall|k: int|
        0 <= k < i && !(cs[k] is Missing) ==> exists|j: int|
            0 <= j < d.len() && cell_same(#[trigger] cs[d[j] as int], cs[k])
    &&& sum_nat(counts) <= i
}

proof fn lemma_sum_nat_nonneg(s: Seq<usize>)
    ensures
        sum_nat(s) >= 0,
    decreases s.len(),
{
    if s.len() > 0 {
        lemma_sum_nat_nonneg(s.drop_last());
    }
}

proof fn lemma_tally_missing(cs: Seq<CellValue>, d: Seq<usize>, counts: Seq<usize>, i: int)
    requires
        tally_ok(cs, d, counts, i),
        i < cs.len(),
        cs[i] is Missing,
    ensures
        tally_ok(cs, d, counts, i + 1),
{
    lemma_distinct_below(cs, i);
    let pre = cs.subrange(0, i);
    let next = cs.subrange(0, i + 1);
    assert(next.drop_last() =~= pre);
    assert(!distinct_at(cs, i));
    assert forall|j: int| 0 <= j < counts.len() implies #[trigger] counts[j] == count_same(
        next,
        cs[d[j] as int],
    ) by {
        assert(distinct_at(cs, d[j] as int));
    }
}

/// Appending a cell adds one to the count of each value it equals.
proof fn lemma_count_same_push(pre: Seq<CellValue>, x: CellValue, y: CellValue)
    ensures
        count_same(pre.push(x), y) == count_same(pre, y) + if cell_same(x, y) {
            1int
        } else {
            0
        },
{
    assert(pre.push(x).drop_last() =~= pre);
}

/// Two values that first appear at different positions differ.
proof fn lemma_distinct_values_differ(cs: Seq<CellValue>, a: int, b: int)
    requires
        distinct_at(cs, a),
        distinct_at(cs, b),
        a != b,
    ensures
        !cell_same(cs[a], cs[b]),
{
    if a < b {
        assert(!cell_same(cs[a], cs[b]));
    } else {
        assert(!cell_same(cs[b], cs[a]));
        lemma_cell_same_equiv(cs[a], cs[b], cs[a]);
    }
}

/// A cell equal to the value first seen at `a` equals the value first
/// seen at `b` exactly when `a` and `b` are the same position.
proof fn lemma_same_as_found(cs: Seq<CellValue>, a: int, b: int, i: int)
    requires
        distinct_at(cs, a),
        distinct_at(cs, b),
        0 <= i < cs.len(),
        cell_same(cs[a], cs[i]),
    ensures
        cell_same(cs[i], cs[b]) <==> a == b,
{
    lemma_cell_same_equiv(cs[i], cs[a], cs[b]);
    lemma_cell_same_equiv(cs[a], cs[i], cs[b]);
    if a != b {
        lemma_distinct_values_differ(cs, a, b);
    }
}

proof fn lemma_tally_found_counts(cs: Seq<CellValue>, d: Seq<usize>, counts: Seq<usize>, i: int, f: int)
    requires
        0 <= i < cs.len(),
        cs.len() <= usize::MAX,
        0 <= f < d.len(),
        counts.len() == d.len(),
        counts[f] <= i,
        forall|q: int| 0 <= q < d.len() ==> distinct_at(cs, #[trigger] d[q] as int),
        forall|a: int, b: int| 0 <= a < b < d.len() ==> #[trigger] d[a] < #[trigger] d[b],
        forall|q: int|
            0 <= q < d.len() ==> #[trigger] counts[q] == count_same(cs.subrange(0, i), cs[d[q] as int]),
        cell_same(cs[d[f] as int], cs[i]),
    ensures
        forall|q: int|
            0 <= q < d.len() ==> #[trigger] counts.update(f, (counts[f] + 1) as usize)[q]
                == count_same(cs.subrange(0, i + 1), cs[d[q] as int]),
{
    let pre = cs.subrange(0, i);
    assert(cs.subrange(0, i + 1) =~= pre.push(cs[i]));
    assert forall|q: int| 0 <= q < d.len() implies #[trigger] counts.update(
        f,
        (counts[f] + 1) as usize,
    )[q] == count_same(cs.subrange(0, i + 1), cs[d[q] as int]) by {
        lemma_count_same_push(pre, cs[i], cs[d[q] as int]);
        let a = d[f] as int;
        let b = d[q] as int;
        assert(distinct_at(cs, a));
        assert(distinct_at(cs, b));
        lemma_same_as_found(cs, a, b, i);
        if q < f {
            assert(d[q] < d[f]);
        } else if f < q {
            assert(d[f] < d[q]);
        }
    }
}

#[verifier::rlimit(100)]
proof fn lemma_tally_found(cs: Seq<CellValue>, d: Seq<usize>, counts: Seq<usize>, i: int, f: int)
    requires
        tally_ok(cs, d, counts, i),
        i < cs.len(),
        !(cs[i] is Missing),
        0 <= f < d.len(),
        cell_same(cs[d[f] as int], cs[i]),
    ensures
        counts[f] < i + 1,
        tally_ok(cs, d, counts.update(f, (counts[f] + 1) as usize), i + 1),
{
    assert(counts[f] <= i) by {
        lemma_sum_nat_nonneg(counts);
        lemma_sum_nat_ge(counts, f);
    }
    let nc = counts.update(f, (counts[f] + 1) as usize);
    assert(sum_nat(nc) <= i + 1) by {
        lemma_sum_nat_update(counts, f, (counts[f] + 1) as usize);
    }
    assert(d == distinct_below(cs, i + 1)) by {
        lemma_distinct_below(cs, i);
        assert(d[f] < i);
        assert(!first_occurrence(cs, i));
    }
    assert(forall|q: int|
        0 <= q < nc.len() ==> #[trigger] nc[q] == count_same(cs.subrange(0, i + 1), cs[d[q] as int]))
        by {
        lemma_distinct_below(cs, i);
        lemma_tally_found_counts(cs, d, counts, i, f);
    }
    assert forall|k: int| 0 <= k < i + 1 && !(cs[k] is Missing) implies exists|j: int|
        0 <= j < d.len() && cell_same(#[trigger] cs[d[j] as int], cs[k]) by {
        if k == i {
            assert(cell_same(cs[d[f] as int], cs[k]));
        }
    }
}

#[verifier::rlimit(100)]
proof fn lemma_tally_new(cs: Seq<CellValue>, d: Seq<usize>, counts: Seq<usize>, i: int)
    requires
        tally_ok(cs, d, counts, i),
        i < cs.len(),
        !(cs[i] is Missing),
        forall|q: int| 0 <= q < d.len() ==> !cell_same(#[trigger] cs[d[q] as int], cs[i]),
    ensures
        tally_ok(cs, d.push(i as usize), counts.push(1), i + 1),
{
    lemma_distinct_below(cs, i);
    let pre = cs.subrange(0, i);
    let next = cs.subrange(0, i + 1);
    assert(next =~= pre.push(cs[i]));
    assert(first_occurrence(cs, i)) by {
        assert forall|k: int| 0 <= k < i implies !cell_same(#[trigger] cs[k], cs[i]) by {
            if cell_same(cs[k], cs[i]) {
                let q = choose|q: int| 0 <= q < d.len() && cell_same(#[trigger] cs[d[q] as int], cs[k]);
                lemma_cell_same_equiv(cs[d[q] as int], cs[k], cs[i]);
            }
        }
    }
    let nd = d.push(i as usize);
    let nc = counts.push(1);
    assert(nd == distinct_below(cs, i + 1));
    assert(nc.drop_last() =~= counts);
    lemma_count_same_none(pre, cs[i]);
    assert forall|q: int| 0 <= q < nc.len() implies #[trigger] nc[q] == count_same(
        next,
        cs[nd[q] as int],
    ) by {
        lemma_count_same_push(pre, cs[i], cs[nd[q] as int]);
        lemma_cell_same_equiv(cs[i], cs[i], cs[i]);
        if q < counts.len() {
            assert(nd[q] == d[q]);
            lemma_cell_same_equiv(cs[i], cs[d[q] as int], cs[i]);
        }
    }
    assert forall|k: int| 0 <= k < i + 1 && !(cs[k] is Missing) implies exists|j: int|
        0 <= j < nd.len() && cell_same(#[trigger] cs[nd[j] as int], cs[k]) by {
        if k == i {
            assert(nd[nd.len() - 1] == i);
            lemma_cell_same_equiv(cs[k], cs[k], cs[k]);
        } else {
            let q = choose|q: int| 0 <= q < d.len() && cell_same(#[trigger] cs[d[q] as int], cs[k]);
            assert(nd[q] == d[q]);
        }
    }
}

/// The positions where each value of the view first appears, with how
/// often each appears.
#[verifier::rlimit(40)]
fn distinct_counts(t: &DataTable, view: &Vec<usize>, col: usize) -> (r: (Vec<usize>, Vec<usize>))
    requires
        readable(*t, view@, col as int),
    ensures
        tally_ok(view_cells(*t, view@, col as int), r.0@, r.1@, view@.len() as int),
{
    let ghost cs = view_cells(*t, view@, col as int);
    let c = &t.columns[col];
    assert(c.values@.len() == t.num_rows);
    let mut d: Vec<usize> = Vec::new();
    let mut counts: Vec<usize> = Vec::new();
    let mut i: usize = 0;
    assert(d@ =~= distinct_below(cs, 0));
    assert(cs.len() == view@.len());
    assert(view@.len() == view.len());
    assert(tally_ok(cs, d@, counts@, 0));
    while i < view.len()
        invariant
            readable(*t, view@, col as int),
            cs == view_cells(*t, view@, col as int),
            *c == t.columns@[col as int],
            c.values@.len() == t.num_rows,
            0 <= i <= view@.len(),
            tally_ok(cs, d@, counts@, i as int),
        decreases view.len() - i,
    {
        let cell = &c.values[view[i]];
        assert(*cell == cs[i as int]);
        let missing = match cell {
            CellValue::Missing => true,
            _ => false,
        };
        if missing {
            proof {
                lemma_tally_missing(cs, d@, counts@, i as int);
            }
        } else {
            proof {
                lemma_distinct_below(cs, i as int);
            }
            let mut found: usize = d.len();
            let mut j: usize = 0;
            while j < d.len()
                invariant
                    readable(*t, view@, col as int),
                    cs == view_cells(*t, view@, col as int),
                    *c == t.columns@[col as int],
                    c.values@.len() == t.num_rows,
                    i < view@.len(),
                    *cell == cs[i as int],
                    0 <= j <= d@.len(),
                    found <= d@.len(),
                    forall|q: int| 0 <= q < d@.len() ==> #[trigger] d@[q] < i,
                    found == d@.len() ==> forall|q: int|
                        0 <= q < j ==> !cell_same(#[trigger] cs[d@[q] as int], cs[i as int]),
                    found < d@.len() ==> cell_same(cs[d@[found as int] as int], cs[i as int]),
                decreases d.len() - j,
            {
                if found == d.len() {
                    let p = d[j];
                    assert(c.values@[view@[p as int] as int] == cs[p as int]);
                    if cell_same_exec(&c.values[view[p]], cell) {
                        found = j;
                    }
                }
                j = j + 1;
            }
            if found < d.len() {
                proof {
                    lemma_tally_found(cs, d@, counts@, i as int, found as int);
                }
                let v = counts[found] + 1;
                counts.set(found, v);
            } else {
                proof {
                    lemma_tally_new(cs, d@, counts@, i as int);
                }
                d.push(i);
                counts.push(1);
            }
        }
        i = i + 1;
    }
    (d, counts)
}

/// Index `x` of the tally ranks before index `y`: more frequent, or as
/// frequent and seen earlier.
pub open spec fn idx_before(counts: Seq<usize>, d: Seq<usize>, x: int, y: int) -> bool {
    counts[x] > counts[y] || (counts[x] == counts[y] && d[x] < d[y])
}

/// The indices of the tally, most frequent first, ties by first
/// appearance.
#[verifier::rlimit(40)]
fn rank_tally(d: &Vec<usize>, counts: &Vec<usize>) -> (r: Vec<usize>)
    requires
        d@.len() == counts@.len(),
        forall|a: int, b: int| 0 <= a < b < d@.len() ==> #[trigger] d@[a] < #[trigger] d@[b],
    ensures
        r@.len() == d@.len(),
        forall|k: int| 0 <= k < r@.len() ==> #[trigger] r@[k] < d@.len(),
        forall|j: usize| j < d@.len() ==> r@.contains(j),
        forall|a: int, b: int|
            0 <= a < b < r@.len() ==> idx_before(counts@, d@, #[trigger] r@[a] as int, #[trigger] r@[b] as int),
{
    let mut out: Vec<usize> = Vec::new();
    let mut i: usize = 0;
    while i < d.len()
        invariant
            d@.len() == counts@.len(),
            forall|a: int, b: int| 0 <= a < b < d@.len() ==> #[trigger] d@[a] < #[trigger] d@[b],
            0 <= i <= d@.len(),
            out@.len() == i,
            forall|k: int| 0 <= k < out@.len() ==> #[trigger] out@[k] < i,
            forall|j: usize| j < i ==> out@.contains(j),
            forall|a: int, b: int|
                0 <= a < b < out@.len() ==> idx_before(counts@, d@, #[trigger] out@[a] as int, #[trigger] out@[b] as int),
        decreases d.len() - i,
    {
        let mut j: usize = out.len();
        while j > 0 && (counts[i] > counts[out[j - 1]] || (counts[i] == counts[out[j - 1]] && d[i] < d[out[j - 1]]))
            invariant
                d@.len() == counts@.len(),
                i < d@.len(),
                0 <= j <= out@.len(),
                forall|k: int| 0 <= k < out@.len() ==> #[trigger] out@[k] < i,
                forall|k: int| j <= k < out@.len() ==> idx_before(counts@, d@, i as int, #[trigger] out@[k] as int),
            decreases j,
        {
            j = j - 1;
        }
        let ghost old_out = out@;
        proof {
            if j > 0 {
                let y = old_out[j - 1] as int;
                assert(y < i);
                assert(d@[y] < d@[i as int]);
            }
        }
        out.insert(j, i);
        proof {
            assert(out@ == old_out.insert(j as int, i));
            assert forall|a: int, b: int| 0 <= a < b < out@.len() implies idx_before(
                counts@,
                d@,
                #[trigger] out@[a] as int,
                #[trigger] out@[b] as int,
            ) by {
                if a < j && b == j {
                    assert(old_out[a] < i);
                    if a < j - 1 {
                        assert(idx_before(counts@, d@, old_out[a] as int, old_out[j - 1] as int));
                    }
                    assert(d@[old_out[j - 1] as int] < d@[i as int]);
                    assert(d@[old_out[a] as int] < d@[i as int]);
                } else if a == j {
                    assert(idx_before(counts@, d@, i as int, old_out[b - 1] as int));
                } else if a < j && b > j {
                    assert(idx_before(counts@, d@, old_out[a] as int, old_out[b - 1] as int));
                } else if a > j {
                    assert(idx_before(counts@, d@, old_out[a - 1] as int, old_out[b - 1] as int));
                } else {
                    assert(idx_before(counts@, d@, old_out[a] as int, old_out[b] as int));
                }
            }
            assert forall|k: int| 0 <= k < out@.len() implies #[trigger] out@[k] < i + 1 by {
                if k < j {
                    assert(out@[k] == old_out[k]);
                } else if k > j {
                    assert(out@[k] == old_out[k - 1]);
                }
            }
            assert forall|x: usize| x < i + 1 implies out@.contains(x) by {
                if x == i {
                    assert(out@[j as int] == i);
                } else {
                    assert(old_out.contains(x));
                    let k = choose|k: int| 0 <= k < old_out.len() && old_out[k] == x;
                    if k < j {
                        assert(out@[k] == x);
                    } else {
                        assert(out@[k + 1] == x);
                    }
                }
            }
        }
        i = i + 1;
    }
    out
}

/// Renders the first `m` ranked values.
#[verifier::rlimit(40)]
fn top_entries(
    t: &DataTable,
    view: &Vec<usize>,
    col: usize,
    d: &Vec<usize>,
    counts: &Vec<usize>,
    ranked: &Vec<usize>,
    m: usize,
    o: &FormatOptions,
) -> (r: (Vec<FormattedValue>, Vec<usize>, Vec<usize>))
    requires
        readable(*t, view@, col as int),
        m <= d@.len(),
        counts@.len() == d@.len(),
        ranked@.len() == d@.len(),
        forall|q: int| 0 <= q < ranked@.len() ==> #[trigger] ranked@[q] < d@.len(),
        forall|q: int| 0 <= q < d@.len() ==> #[trigger] d@[q] < view@.len(),
    ensures
        r.0@.len() == m,
        r.1@.len() == m,
        r.2@.len() == m,
        forall|q: int| 0 <= q < m ==> #[trigger] r.2@[q] == d@[ranked@[q] as int],
        forall|q: int| 0 <= q < m ==> #[trigger] r.1@[q] == counts@[ranked@[q] as int],
        forall|q: int|
            0 <= q < m ==> renders_as(
                #[trigger] r.0@[q],
                view_cells(*t, view@, col as int)[r.2@[q] as int],
                t.columns@[col as int].kind,
                *o,
            ),
{
    let ghost cs = view_cells(*t, view@, col as int);
    let c = &t.columns[col];
    assert(c.values@.len() == t.num_rows);
    let mut values: Vec<FormattedValue> = Vec::new();
    let mut out_counts: Vec<usize> = Vec::new();
    let mut fp: Vec<usize> = Vec::new();
    let mut k: usize = 0;
    while k < m
        invariant
            readable(*t, view@, col as int),
            cs == view_cells(*t, view@, col as int),
            *c == t.columns@[col as int],
            c.values@.len() == t.num_rows,
            m <= d@.len(),
            counts@.len() == d@.len(),
            ranked@.len() == d@.len(),
            forall|q: int| 0 <= q < ranked@.len() ==> #[trigger] ranked@[q] < d@.len(),
            forall|q: int| 0 <= q < d@.len() ==> #[trigger] d@[q] < view@.len(),
            0 <= k <= m,
            fp@.len() == k,
            out_counts@.len() == k,
            values@.len() == k,
            forall|q: int| 0 <= q < k ==> #[trigger] fp@[q] == d@[ranked@[q] as int],
            forall|q: int| 0 <= q < k ==> #[trigger] out_counts@[q] == counts@[ranked@[q] as int],
            forall|q: int|
                0 <= q < k ==> renders_as(
                    #[trigger] values@[q],
                    cs[fp@[q] as int],
                    c.kind,
                    *o,
                ),
        decreases m - k,
    {
        let j = ranked[k];
        let p = d[j];
        assert(c.values@[view@[p as int] as int] == cs[p as int]);
        values.push(format_cell(&c.values[view[p]], c.kind, o));
        out_counts.push(counts[j]);
        fp.push(p);
        k = k + 1;
    }
    (values, out_counts, fp)
}

/// The summed counts of the tallied values not listed in `fp`.
#[verifier::rlimit(40)]
fn unlisted_total(
    d: &Vec<usize>,
    counts: &Vec<usize>,
    fp: &Vec<usize>,
    Ghost(cs): Ghost<Seq<CellValue>>,
) -> (r: usize)
    requires
        counts@.len() == d@.len(),
        forall|j: int| 0 <= j < d@.len() ==> #[trigger] counts@[j] == count_same(cs, cs[d@[j] as int]),
        sum_nat(counts@) <= usize::MAX,
    ensures
        r == unlisted_sum(cs, d@, fp@),
{
    let mut other: usize = 0;
    let mut j: usize = 0;
    while j < d.len()
        invariant
            counts@.len() == d@.len(),
            forall|x: int| 0 <= x < d@.len() ==> #[trigger] counts@[x] == count_same(cs, cs[d@[x] as int]),
            sum_nat(counts@) <= usize::MAX,
            0 <= j <= d@.len(),
            other == unlisted_sum(cs, d@.subrange(0, j as int), fp@),
            other <= sum_nat(counts@.subrange(0, j as int)),
        decreases d.len() - j,
    {
        let mut listed = false;
        let mut q: usize = 0;
        while q < fp.len()
            invariant
                j < d@.len(),
                0 <= q <= fp@.len(),
                listed == exists|x: int| 0 <= x < q && #[trigger] fp@[x] == d@[j as int],
            decreases fp.len() - q,
        {
            if fp[q] == d[j] {
                listed = true;
            }
            q = q + 1;
        }
        proof {
            let pre = d@.subrange(0, j as int);
            assert(d@.subrange(0, j + 1).drop_last() =~= pre);
            assert(d@.subrange(0, j + 1).last() == d@[j as int]);
            assert(counts@.subrange(0, j + 1).drop_last() =~= counts@.subrange(0, j as int));
            assert(listed == fp@.contains(d@[j as int]));
            lemma_sum_nat_prefix(counts@, j + 1);
        }
        if !listed {
            other = other + counts[j];
        }
        j = j + 1;
    }
    assert(d@.subrange(0, d@.len() as int) =~= d@);
    other
}

proof fn lemma_ranked_listing(
    cs: Seq<CellValue>,
    d: Seq<usize>,
    counts: Seq<usize>,
    ranked: Seq<usize>,
    fp: Seq<usize>,
    m: int,
)
    requires
        d.len() <= usize::MAX,
        counts.len() == d.len(),
        forall|j: int| 0 <= j < d.len() ==> #[trigger] counts[j] == count_same(cs, cs[d[j] as int]),
        ranked.len() == d.len(),
        forall|k: int| 0 <= k < ranked.len() ==> #[trigger] ranked[k] < d.len(),
        forall|j: usize| j < d.len() ==> ranked.contains(j),
        forall|a: int, b: int|
            0 <= a < b < ranked.len() ==> idx_before(counts, d, #[trigger] ranked[a] as int, #[trigger] ranked[b] as int),
        0 <= m <= d.len(),
        fp.len() == m,
        forall|q: int| 0 <= q < m ==> #[trigger] fp[q] == d[ranked[q] as int],
    ensures
        forall|q: int| 0 <= q < fp.len() ==> d.contains(#[trigger] fp[q]),
        forall|a: int, b: int|
            0 <= a < b < fp.len() ==> ranks_before(cs, #[trigger] fp[a] as int, #[trigger] fp[b] as int),
        forall|q: int, p: usize|
            #![trigger fp[q], d.contains(p)]
            0 <= q < fp.len() && d.contains(p) && !fp.contains(p) ==> ranks_before(
                cs,
                fp[q] as int,
                p as int,
            ),
{
    assert forall|q: int| 0 <= q < fp.len() implies d.contains(#[trigger] fp[q]) by {
        assert(fp[q] == d[ranked[q] as int]);
    }
    assert forall|a: int, b: int| 0 <= a < b < fp.len() implies ranks_before(
        cs,
        #[trigger] fp[a] as int,
        #[trigger] fp[b] as int,
    ) by {
        assert(idx_before(counts, d, ranked[a] as int, ranked[b] as int));
    }
    assert forall|q: int, p: usize|
        #![trigger fp[q], d.contains(p)]
        0 <= q < fp.len() && d.contains(p) && !fp.contains(p) implies ranks_before(
        cs,
        fp[q] as int,
        p as int,
    ) by {
        let jj = choose|jj: int| 0 <= jj < d.len() && d[jj] == p;
        assert(ranked.contains(jj as usize));
        let tt = choose|tt: int| 0 <= tt < ranked.len() && ranked[tt] == jj as usize;
        assert(ranked[tt] as int == jj);
        if tt < m {
            assert(fp[tt] == p);
            assert(fp.contains(p));
        }
        assert(q < tt);
        assert(idx_before(counts, d, ranked[q] as int, ranked[tt] as int));
        assert(fp[q] == d[ranked[q] as int]);
    }
}

/// The most frequent values of a column over the view.
#[verifier::rlimit(40)]
pub fn frequency_table(
    t: &DataTable,
    view: &Vec<usize>,
    col: usize,
    limit: usize,
    o: &FormatOptions,
) -> (r: FrequencyTable)
    requires
        readable(*t, view@, col as int),
    ensures
        frequency_of(r, view_cells(*t, view@, col as int), limit as int, t.columns@[col as int].kind, *o),
{
    let ghost cs = view_cells(*t, view@, col as int);
    let (d, counts) = distinct_counts(t, view, col);
    proof {
        lemma_distinct_below(cs, view@.len() as int);
        assert(view@.len() == view.len());
        assert(cs.subrange(0, cs.len() as int) =~= cs);
        assert(forall|j: int| 0 <= j < d@.len() ==> #[trigger] counts@[j] == count_same(cs, cs[d@[j] as int]));
    }
    let ranked = rank_tally(&d, &counts);
    let m: usize = if limit < d.len() { limit } else { d.len() };
    let (values, out_counts, fp) = top_entries(t, view, col, &d, &counts, &ranked, m, o);
    let other = unlisted_total(&d, &counts, &fp, Ghost(cs));
    proof {
        lemma_ranked_listing(cs, d@, counts@, ranked@, fp@, m as int);
    }
    FrequencyTable { values, counts: out_counts, first_positions: fp, other_count: other }
}


} // verus!
