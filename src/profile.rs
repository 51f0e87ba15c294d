//! Column profiles over the current view: null counts, summary statistics,
//! histograms and frequency tables.
use vstd::prelude::*;
use vstd::string::StrSliceExecFns;
use crate::table::{CellValue, ColumnKind, DataTable};
use crate::frequency::{frequency_of, frequency_table, FrequencyTable};
use crate::histogram::{histogram, histogram_fits, histogram_of, Histogram};
use crate::view::{cell_same, cell_same_exec, ViewSession};

verus! {

broadcast use vstd::seq_lib::to_multiset_insert;

/// The cells of column `col` at the rows of the view, in view order.
pub open spec fn view_cells(t: DataTable, view: Seq<usize>, col: int) -> Seq<CellValue> {
    Seq::new(view.len(), |i: int| t.cell(col, view[i] as int))
}

/// How many cells are missing.
pub open spec fn count_missing(cs: Seq<CellValue>) -> nat
    decreases cs.len(),
{
    if cs.len() == 0 {
        0
    } else {
        count_missing(cs.drop_last()) + if cs.last() is Missing {
            1nat
        } else {
            0
        }
    }
}

/// The numbers among the cells, in order.
pub open spec fn numbers_of(cs: Seq<CellValue>) -> Seq<int>
    decreases cs.len(),
{
    if cs.len() == 0 {
        Seq::empty()
    } else {
        match cs.last() {
            CellValue::Number(v) => numbers_of(cs.drop_last()).push(v as int),
            _ => numbers_of(cs.drop_last()),
        }
    }
}

pub open spec fn sum(s: Seq<int>) -> int
    decreases s.len(),
{
    if s.len() == 0 {
        0
    } else {
        sum(s.drop_last()) + s.last()
    }
}

pub open spec fn sum_sq(s: Seq<int>) -> int
    decreases s.len(),
{
    if s.len() == 0 {
        0
    } else {
        sum_sq(s.drop_last()) + s.last() * s.last()
    }
}

pub open spec fn min_of(s: Seq<int>) -> int
    decreases s.len(),
{
    if s.len() <= 1 {
        s[0]
    } else if s.last() < min_of(s.drop_last()) {
        s.last()
    } else {
        min_of(s.drop_last())
    }
}

pub open spec fn max_of(s: Seq<int>) -> int
    decreases s.len(),
{
    if s.len() <= 1 {
        s[0]
    } else if s.last() > max_of(s.drop_last()) {
        s.last()
    } else {
        max_of(s.drop_last())
    }
}

/// Division rounding toward zero.
pub open spec fn trunc_div(a: int, b: int) -> int {
    if a >= 0 {
        a / b
    } else {
        -((-a) / b)
    }
}

pub open spec fn sorted_ints(s: Seq<int>) -> bool {
    forall|i: int, j: int| 0 <= i < j < s.len() ==> s[i] <= s[j]
}

/// The median of sorted values: the middle one, or the mean of the two
/// middle ones rounded toward zero.
pub open spec fn median_of_sorted(s: Seq<int>) -> int {
    if s.len() % 2 == 1 {
        s[(s.len() / 2) as int]
    } else {
        trunc_div(s[s.len() / 2 - 1] + s[(s.len() / 2) as int], 2)
    }
}

/// `n` times the sum of squared deviations from the mean.
pub open spec fn scaled_deviation(s: Seq<int>) -> int {
    s.len() * sum_sq(s) - sum(s) * sum(s)
}

/// The whole square root.
pub open spec fn is_isqrt(r: int, v: int) -> bool {
    0 <= r && r * r <= v < (r + 1) * (r + 1)
}

/// Summary statistics of numbers, in millionths. The standard deviation
/// is the sample one, rounded down; the mean rounds toward zero.
#[derive(Clone, Copy, Debug, PartialEq, Eq, Structural)]
pub struct NumberStats {
    pub min_value: Option<i64>,
    pub max_value: Option<i64>,
    pub mean: Option<i64>,
    pub median: Option<i64>,
    pub stdev: Option<i64>,
}

/// `r` holds the statistics of the numbers `s`.
pub open spec fn number_stats_of(r: NumberStats, s: Seq<int>) -> bool {
    &&& (s.len() == 0 <==> r.min_value is None)
    &&& (s.len() == 0 <==> r.max_value is None)
    &&& (s.len() == 0 <==> r.mean is None)
    &&& (s.len() == 0 <==> r.median is None)
    &&& (s.len() < 2 <==> r.stdev is None)
    &&& s.len() > 0 ==> r.min_value->0 == min_of(s) && r.max_value->0 == max_of(s)
        && r.mean->0 == trunc_div(sum(s), s.len() as int) && exists|q: Seq<int>|
        sorted_ints(q) && q.to_multiset() == s.to_multiset() && r.median->0 == median_of_sorted(q)
    &&& s.len() >= 2 ==> is_isqrt(
        r.stdev->0 as int,
        scaled_deviation(s) / (s.len() * (s.len() - 1)),
    )
}

/// The statistics of numbers can be computed in 128-bit arithmetic.
pub open spec fn moments_fit(s: Seq<int>) -> bool {
    s.len() * sum_sq(s) <= i128::MAX
}

proof fn lemma_sum_sq_nonneg(s: Seq<int>)
    ensures
        sum_sq(s) >= 0,
    decreases s.len(),
{
    if s.len() > 0 {
        lemma_sum_sq_nonneg(s.drop_last());
        assert(s.last() * s.last() >= 0) by (nonlinear_arith);
    }
}

proof fn lemma_spread_nonneg(s: Seq<int>, y: int)
    ensures
        sum_sq(s) - 2 * y * sum(s) + s.len() * y * y >= 0,
    decreases s.len(),
{
    if s.len() > 0 {
        let p = s.drop_last();
        let x = s.last();
        lemma_spread_nonneg(p, y);
        assert(sum_sq(s) - 2 * y * sum(s) + s.len() * y * y == (sum_sq(p) - 2 * y * sum(p) + p.len()
            * y * y) + (x - y) * (x - y)) by (nonlinear_arith)
            requires
                sum_sq(s) == sum_sq(p) + x * x,
                sum(s) == sum(p) + x,
                s.len() == p.len() + 1,
        ;
        assert((x - y) * (x - y) >= 0) by (nonlinear_arith);
    }
}

/// The sum of squared deviations is never negative.
proof fn lemma_deviation_nonneg(s: Seq<int>)
    ensures
        scaled_deviation(s) >= 0,
    decreases s.len(),
{
    if s.len() > 0 {
        let p = s.drop_last();
        let y = s.last();
        lemma_deviation_nonneg(p);
        lemma_spread_nonneg(p, y);
        assert(scaled_deviation(s) == scaled_deviation(p) + (sum_sq(p) - 2 * y * sum(p) + p.len() * y
            * y)) by (nonlinear_arith)
            requires
                sum_sq(s) == sum_sq(p) + y * y,
                sum(s) == sum(p) + y,
                s.len() == p.len() + 1,
                scaled_deviation(s) == s.len() * sum_sq(s) - sum(s) * sum(s),
                scaled_deviation(p) == p.len() * sum_sq(p) - sum(p) * sum(p),
        ;
    }
}

/// The whole square root of `v`.
pub fn isqrt(v: u128) -> (r: u64)
    ensures
        is_isqrt(r as int, v as int),
{
    let mut lo: u128 = 0;
    let mut hi: u128 = 0x1_0000_0000_0000_0000;
    assert(hi * hi > v) by (nonlinear_arith)
        requires
            hi == 0x1_0000_0000_0000_0000u128,
            v <= u128::MAX,
    ;
    while hi - lo > 1
        invariant
            lo < hi <= 0x1_0000_0000_0000_0000,
            lo * lo <= v,
            v < hi * hi,
        decreases hi - lo,
    {
        let mid = lo + (hi - lo) / 2;
        assert(mid < 0x1_0000_0000_0000_0000);
        assert(mid * mid < 0x1_0000_0000_0000_0000 * 0x1_0000_0000_0000_0000) by (nonlinear_arith)
            requires
                mid < 0x1_0000_0000_0000_0000int,
        ;
        assert(mid * mid <= u128::MAX);
        if mid * mid <= v {
            lo = mid;
        } else {
            hi = mid;
        }
    }
    assert(hi == lo + 1);
    lo as u64
}

pub open spec fn ints(v: Seq<i64>) -> Seq<int> {
    Seq::new(v.len(), |i: int| v[i] as int)
}

/// Every row of the view is a row of the table and the column exists.
pub open spec fn readable(t: DataTable, view: Seq<usize>, col: int) -> bool {
    &&& t.wf()
    &&& 0 <= col < t.columns@.len()
    &&& forall|i: int| 0 <= i < view.len() ==> #[trigger] view[i] < t.num_rows
}

/// The number of missing cells of a column in the view.
pub fn null_count(t: &DataTable, view: &Vec<usize>, col: usize) -> (r: usize)
    requires
        readable(*t, view@, col as int),
    ensures
        r == count_missing(view_cells(*t, view@, col as int)),
{
    let c = &t.columns[col];
    assert(c.values@.len() == t.num_rows);
    let mut n: usize = 0;
    let mut i: usize = 0;
    while i < view.len()
        invariant
            readable(*t, view@, col as int),
            *c == t.columns@[col as int],
            c.values@.len() == t.num_rows,
            0 <= i <= view@.len(),
            n <= i,
            n == count_missing(view_cells(*t, view@, col as int).subrange(0, i as int)),
        decreases view.len() - i,
    {
        let ghost cs = view_cells(*t, view@, col as int);
        assert(cs.subrange(0, i + 1).drop_last() =~= cs.subrange(0, i as int));
        if let CellValue::Missing = c.values[view[i]] {
            n = n + 1;
        }
        i = i + 1;
    }
    assert(view_cells(*t, view@, col as int).subrange(0, view@.len() as int) =~= view_cells(
        *t,
        view@,
        col as int,
    ));
    n
}

/// The numbers of a column in the view, in view order.
pub fn collect_numbers(t: &DataTable, view: &Vec<usize>, col: usize) -> (r: Vec<i64>)
    requires
        readable(*t, view@, col as int),
    ensures
        ints(r@) == numbers_of(view_cells(*t, view@, col as int)),
{
    let c = &t.columns[col];
    assert(c.values@.len() == t.num_rows);
    let mut out: Vec<i64> = Vec::new();
    let mut i: usize = 0;
    while i < view.len()
        invariant
            readable(*t, view@, col as int),
            *c == t.columns@[col as int],
            c.values@.len() == t.num_rows,
            0 <= i <= view@.len(),
            ints(out@) == numbers_of(view_cells(*t, view@, col as int).subrange(0, i as int)),
        decreases view.len() - i,
    {
        let ghost cs = view_cells(*t, view@, col as int);
        assert(cs.subrange(0, i + 1).drop_last() =~= cs.subrange(0, i as int));
        if let CellValue::Number(v) = c.values[view[i]] {
            let ghost before = out@;
            out.push(v);
            assert(ints(out@) =~= ints(before).push(v as int));
        }
        i = i + 1;
    }
    assert(view_cells(*t, view@, col as int).subrange(0, view@.len() as int) =~= view_cells(
        *t,
        view@,
        col as int,
    ));
    out
}

/// The values in ascending order.
#[verifier::rlimit(40)]
pub fn sort_numbers(v: &Vec<i64>) -> (r: Vec<i64>)
    ensures
        sorted_ints(ints(r@)),
        ints(r@).to_multiset() == ints(v@).to_multiset(),
        r@.len() == v@.len(),
{
    let mut out: Vec<i64> = Vec::new();
    let mut i: usize = 0;
    assert(ints(out@) =~= ints(v@.subrange(0, 0)));
    while i < v.len()
        invariant
            0 <= i <= v@.len(),
            out@.len() == i,
            sorted_ints(ints(out@)),
            ints(out@).to_multiset() == ints(v@.subrange(0, i as int)).to_multiset(),
        decreases v.len() - i,
    {
        let x = v[i];
        let mut j: usize = out.len();
        while j > 0 && out[j - 1] > x
            invariant
                0 <= j <= out@.len(),
                forall|k: int| j <= k < out@.len() ==> out@[k] > x,
            decreases j,
        {
            j = j - 1;
        }
        let ghost old_out = out@;
        out.insert(j, x);
        proof {
            assert(out@ == old_out.insert(j as int, x));
            assert(ints(out@) =~= ints(old_out).insert(j as int, x as int));
            assert(ints(v@.subrange(0, i + 1)) =~= ints(v@.subrange(0, i as int)).push(x as int));
            assert(ints(v@.subrange(0, i as int)).push(x as int) =~= ints(v@.subrange(0, i as int)).insert(
                i as int,
                x as int,
            ));
            assert forall|a: int, b: int| 0 <= a < b < out@.len() implies ints(out@)[a] <= ints(
                out@,
            )[b] by {
                if b < j {
                    assert(ints(old_out)[a] <= ints(old_out)[b]);
                } else if a > j {
                    assert(ints(old_out)[a - 1] <= ints(old_out)[b - 1]);
                } else if a < j && b > j {
                    assert(ints(old_out)[a] <= ints(old_out)[b - 1]);
                } else if a == j {
                } else {
                    if j > 0 {
                        assert(old_out[j - 1] <= x);
                        assert(ints(old_out)[a] <= ints(old_out)[j - 1]);
                    }
                }
            }
        }
        i = i + 1;
    }
    assert(v@.subrange(0, v@.len() as int) =~= v@);
    out
}

/// Statistics of numbers; `None` when the sums do not fit in 128 bits.
#[verifier::rlimit(40)]
pub fn number_stats(v: &Vec<i64>) -> (r: Option<NumberStats>)
    ensures
        r is Some <==> moments_fit(ints(v@)),
        r is Some ==> number_stats_of(r->0, ints(v@)),
{
    let ghost s = ints(v@);
    let n = v.len();
    if n == 0 {
        return Some(
            NumberStats { min_value: None, max_value: None, mean: None, median: None, stdev: None },
        );
    }
    let mut lo: i64 = v[0];
    let mut hi: i64 = v[0];
    let mut total: i128 = 0;
    let mut squares: u128 = 0;
    let mut i: usize = 0;
    while i < n
        invariant
            n == v@.len(),
            n > 0,
            s == ints(v@),
            0 <= i <= n,
            i > 0 ==> lo == min_of(s.subrange(0, i as int)) && hi == max_of(s.subrange(0, i as int)),
            i == 0 ==> lo == v@[0] && hi == v@[0],
            total == sum(s.subrange(0, i as int)),
            -(i as int) * 0x8000_0000_0000_0000 <= total <= (i as int) * 0x7fff_ffff_ffff_ffff,
            squares == sum_sq(s.subrange(0, i as int)),
            sum_sq(s.subrange(0, i as int)) <= u128::MAX,
        decreases n - i,
    {
        let x = v[i];
        let ghost p = s.subrange(0, i as int);
        assert(s.subrange(0, i + 1).drop_last() =~= p);
        assert(s.subrange(0, i + 1).last() == x);
        proof {
            lemma_sum_sq_nonneg(s.subrange(0, i + 1));
            lemma_sum_sq_nonneg(s);
            lemma_sum_sq_prefix(s, i + 1);
        }
        if i > 0 {
            if x < lo {
                lo = x;
            }
            if x > hi {
                hi = x;
            }
        }
        total = total + x as i128;
        let xi = x as i128;
        assert(0 <= xi * xi <= 0x4000_0000_0000_0000_0000_0000_0000_0000int) by (nonlinear_arith)
            requires
                -0x8000_0000_0000_0000int <= xi <= 0x7fff_ffff_ffff_ffff,
        ;
        let sq: u128 = (xi * xi) as u128;
        if squares > u128::MAX - sq {
            proof {
                assert(sum_sq(s.subrange(0, i + 1)) > u128::MAX);
                assert(n * sum_sq(s) >= sum_sq(s)) by (nonlinear_arith)
                    requires
                        n >= 1,
                        sum_sq(s) >= 0,
                ;
            }
            return None;
        }
        squares = squares + sq;
        i = i + 1;
    }
    assert(s.subrange(0, n as int) =~= s);
    if squares > (i128::MAX as u128) / (n as u128) {
        proof {
            assert(n * sum_sq(s) > i128::MAX) by (nonlinear_arith)
                requires
                    squares > (i128::MAX as int) / (n as int),
                    squares == sum_sq(s),
                    n >= 1,
            ;
        }
        return None;
    }
    proof {
        assert(n * squares <= i128::MAX) by (nonlinear_arith)
            requires
                squares <= (i128::MAX as int) / (n as int),
                n >= 1,
        ;
    }
    let mean: i128 = if total >= 0 {
        total / (n as i128)
    } else {
        -((-total) / (n as i128))
    };
    assert(-0x8000_0000_0000_0000 <= mean <= 0x7fff_ffff_ffff_ffff) by (nonlinear_arith)
        requires
            -(n as int) * 0x8000_0000_0000_0000 <= total <= (n as int) * 0x7fff_ffff_ffff_ffff,
            mean == trunc_div(total as int, n as int),
            n >= 1,
    ;
    let sorted = sort_numbers(v);
    let median: i128 = if n % 2 == 1 {
        sorted[n / 2] as i128
    } else {
        let a = sorted[n / 2 - 1] as i128 + sorted[n / 2] as i128;
        if a >= 0 {
            a / 2
        } else {
            -((-a) / 2)
        }
    };
    assert(sorted@[(n / 2) as int] as int == ints(sorted@)[(n / 2) as int]);
    let stdev: Option<i64> = if n < 2 {
        None
    } else {
        proof {
            lemma_deviation_nonneg(s);
            assert(total * total >= 0) by (nonlinear_arith);
            assert(s.len() == n);
            assert(total * total <= n * squares);
            assert((n as int) * (n - 1) < 0x1_0000_0000_0000_0000_0000_0000_0000_0000int)
                by (nonlinear_arith)
                requires
                    n < 0x1_0000_0000_0000_0000int,
                    n >= 2,
            ;
            assert((n as int) * (n - 1) >= 2) by (nonlinear_arith)
                requires
                    n >= 2,
            ;
        }
        let tt: i128 = total * total;
        let dev: i128 = (n as i128) * (squares as i128) - tt;
        let den: u128 = (n as u128) * ((n - 1) as u128);
        let q: u128 = (dev as u128) / den;
        let root = isqrt(q);
        proof {
            assert(q <= i128::MAX / 2) by (nonlinear_arith)
                requires
                    q == (dev as int) / (den as int),
                    0 <= dev <= i128::MAX,
                    den >= 2,
            ;
            assert(root < 0x8000_0000_0000_0000) by (nonlinear_arith)
                requires
                    root * root <= q,
                    q <= i128::MAX / 2,
                    root >= 0,
            ;
            assert(q == scaled_deviation(s) / (s.len() * (s.len() - 1)));
        }
        Some(root as i64)
    };
    proof {
        assert(sorted_ints(ints(sorted@)));
        assert(ints(sorted@).len() == n);
        if n % 2 == 0 {
            assert(sorted@[n / 2 - 1] as int == ints(sorted@)[n / 2 - 1]);
        }
        assert(median == median_of_sorted(ints(sorted@)));
    }
    Some(
        NumberStats {
            min_value: Some(lo),
            max_value: Some(hi),
            mean: Some(mean as i64),
            median: Some(median as i64),
            stdev,
        },
    )
}

proof fn lemma_sum_sq_prefix(s: Seq<int>, k: int)
    requires
        0 <= k <= s.len(),
    ensures
        sum_sq(s.subrange(0, k)) <= sum_sq(s),
    decreases s.len(),
{
    if k < s.len() {
        lemma_sum_sq_prefix(s.drop_last(), k);
        assert(s.drop_last().subrange(0, k) =~= s.subrange(0, k));
        assert(s.last() * s.last() >= 0) by (nonlinear_arith);
    } else {
        assert(s.subrange(0, k) =~= s);
    }
}

/// How many cells hold the empty string.
pub open spec fn count_empty(cs: Seq<CellValue>) -> nat
    decreases cs.len(),
{
    if cs.len() == 0 {
        0
    } else {
        count_empty(cs.drop_last()) + if cs.last() matches CellValue::Text(x) && x@.len() == 0 {
            1nat
        } else {
            0
        }
    }
}

/// Cell `i` holds a value that no earlier cell holds.
pub open spec fn first_occurrence(cs: Seq<CellValue>, i: int) -> bool {
    forall|j: int| 0 <= j < i ==> !cell_same(#[trigger] cs[j], cs[i])
}

/// The number of distinct values among the first `k` cells; a missing
/// cell is a value of its own.
pub open spec fn count_distinct(cs: Seq<CellValue>, k: int) -> nat
    decreases k,
{
    if k <= 0 {
        0
    } else {
        count_distinct(cs, k - 1) + if first_occurrence(cs, k - 1) {
            1nat
        } else {
            0
        }
    }
}

pub open spec fn count_bool(cs: Seq<CellValue>, b: bool) -> nat
    decreases cs.len(),
{
    if cs.len() == 0 {
        0
    } else {
        count_bool(cs.drop_last(), b) + if cs.last() == CellValue::Boolean(b) {
            1nat
        } else {
            0
        }
    }
}

#[derive(Clone, Copy, Debug, PartialEq, Eq, Structural)]
pub struct TextStats {
    pub num_empty: usize,
    pub num_unique: usize,
}

#[derive(Clone, Copy, Debug, PartialEq, Eq, Structural)]
pub struct BooleanStats {
    pub true_count: usize,
    pub false_count: usize,
}

#[derive(Clone, Copy, Debug, PartialEq, Eq, Structural)]
pub enum SummaryStats {
    Number(NumberStats),
    Text(TextStats),
    Boolean(BooleanStats),
}

/// Why a profile could not be computed.
#[derive(Clone, Copy, Debug, PartialEq, Eq, Structural)]
pub enum ProfileError {
    /// The requested column does not exist.
    ColumnMissing,
    /// The profile does not apply to the column's type.
    UnsupportedType,
    /// The numbers are too large for the computation.
    Overflow,
    /// A histogram was asked for with no bins.
    NoBins,
}

#[verifier::rlimit(40)]
pub fn text_stats(t: &DataTable, view: &Vec<usize>, col: usize) -> (r: TextStats)
    requires
        readable(*t, view@, col as int),
    ensures
        r.num_empty == count_empty(view_cells(*t, view@, col as int)),
        r.num_unique == count_distinct(
            view_cells(*t, view@, col as int),
            view@.len() as int,
        ),
{
    let ghost cs = view_cells(*t, view@, col as int);
    let c = &t.columns[col];
    assert(c.values@.len() == t.num_rows);
    let mut empty: usize = 0;
    let mut unique: usize = 0;
    let mut i: usize = 0;
    while i < view.len()
        invariant
            readable(*t, view@, col as int),
            cs == view_cells(*t, view@, col as int),
            *c == t.columns@[col as int],
            c.values@.len() == t.num_rows,
            0 <= i <= view@.len(),
            empty <= i,
            unique <= i,
            empty == count_empty(cs.subrange(0, i as int)),
            unique == count_distinct(cs, i as int),
        decreases view.len() - i,
    {
        assert(cs.subrange(0, i + 1).drop_last() =~= cs.subrange(0, i as int));
        let cell = &c.values[view[i]];
        assert(*cell == cs[i as int]);
        if let CellValue::Text(x) = cell {
            if x.unicode_len() == 0 {
                empty = empty + 1;
            }
        }
        let mut seen = false;
        let mut j: usize = 0;
        while j < i
            invariant
                readable(*t, view@, col as int),
                cs == view_cells(*t, view@, col as int),
                *c == t.columns@[col as int],
                c.values@.len() == t.num_rows,
                i < view@.len(),
                *cell == cs[i as int],
                0 <= j <= i,
                seen == exists|k: int| 0 <= k < j && cell_same(#[trigger] cs[k], cs[i as int]),
            decreases i - j,
        {
            assert(c.values@[view@[j as int] as int] == cs[j as int]);
            if cell_same_exec(&c.values[view[j]], cell) {
                seen = true;
            }
            j = j + 1;
        }
        if !seen {
            unique = unique + 1;
        }
        i = i + 1;
    }
    assert(cs.subrange(0, view@.len() as int) =~= cs);
    TextStats { num_empty: empty, num_unique: unique }
}

pub fn boolean_stats(t: &DataTable, view: &Vec<usize>, col: usize) -> (r: BooleanStats)
    requires
        readable(*t, view@, col as int),
    ensures
        r.true_count == count_bool(view_cells(*t, view@, col as int), true),
        r.false_count == count_bool(view_cells(*t, view@, col as int), false),
{
    let ghost cs = view_cells(*t, view@, col as int);
    let c = &t.columns[col];
    assert(c.values@.len() == t.num_rows);
    let mut yes: usize = 0;
    let mut no: usize = 0;
    let mut i: usize = 0;
    while i < view.len()
        invariant
            readable(*t, view@, col as int),
            cs == view_cells(*t, view@, col as int),
            *c == t.columns@[col as int],
            c.values@.len() == t.num_rows,
            0 <= i <= view@.len(),
            yes <= i,
            no <= i,
            yes == count_bool(cs.subrange(0, i as int), true),
            no == count_bool(cs.subrange(0, i as int), false),
        decreases view.len() - i,
    {
        assert(cs.subrange(0, i + 1).drop_last() =~= cs.subrange(0, i as int));
        match c.values[view[i]] {
            CellValue::Boolean(true) => {
                yes = yes + 1;
            },
            CellValue::Boolean(false) => {
                no = no + 1;
            },
            _ => {},
        }
        i = i + 1;
    }
    assert(cs.subrange(0, view@.len() as int) =~= cs);
    BooleanStats { true_count: yes, false_count: no }
}

/// `r` is the summary of a column of kind `k` whose cells in the view are
/// `cs`: statistics of the numbers, of the text or of the logical values,
/// by the column's type.
pub open spec fn summary_matches(r: Result<SummaryStats, ProfileError>, k: ColumnKind, cs: Seq<CellValue>) -> bool {
    match k {
        ColumnKind::Number | ColumnKind::Integer => if moments_fit(numbers_of(cs)) {
            r matches Ok(SummaryStats::Number(st)) && number_stats_of(st, numbers_of(cs))
        } else {
            r == Err::<SummaryStats, ProfileError>(ProfileError::Overflow)
        },
        ColumnKind::Text => r matches Ok(SummaryStats::Text(st)) && st.num_empty == count_empty(cs)
            && st.num_unique == count_distinct(cs, cs.len() as int),
        ColumnKind::Boolean => r matches Ok(SummaryStats::Boolean(st)) && st.true_count
            == count_bool(cs, true) && st.false_count == count_bool(cs, false),
        _ => r == Err::<SummaryStats, ProfileError>(ProfileError::UnsupportedType),
    }
}

/// Summary statistics of a column over the view.
pub fn summary_stats(t: &DataTable, view: &Vec<usize>, col: usize) -> (r: Result<SummaryStats, ProfileError>)
    requires
        readable(*t, view@, col as int),
    ensures
        summary_matches(r, t.columns@[col as int].kind, view_cells(*t, view@, col as int)),
{
    match t.columns[col].kind {
        ColumnKind::Number | ColumnKind::Integer => {
            let v = collect_numbers(t, view, col);
            match number_stats(&v) {
                Some(st) => Ok(SummaryStats::Number(st)),
                None => Err(ProfileError::Overflow),
            }
        },
        ColumnKind::Text => Ok(SummaryStats::Text(text_stats(t, view, col))),
        ColumnKind::Boolean => Ok(SummaryStats::Boolean(boolean_stats(t, view, col))),
        _ => Err(ProfileError::UnsupportedType),
    }
}


/// A profile a client may ask for.
#[derive(Clone, Copy, Debug, PartialEq, Eq, Structural)]
pub enum ProfileKind {
    NullCount,
    SummaryStats,
    Histogram { num_bins: usize },
    FrequencyTable { limit: usize },
}

/// The profiles asked for one column.
#[derive(Clone, Debug)]
pub struct ColumnProfileRequest {
    pub column_index: usize,
    pub profiles: Vec<ProfileKind>,
}

/// The outcome of one requested profile.
#[derive(Debug)]
pub enum ProfileResult {
    NullCount(Result<usize, ProfileError>),
    SummaryStats(Result<SummaryStats, ProfileError>),
    Histogram(Result<Histogram, ProfileError>),
    FrequencyTable(Result<FrequencyTable, ProfileError>),
}

/// `r` answers profile `k` of column `col` over the view, whatever the
/// other profiles asked for give.
pub open spec fn profile_answers(
    r: ProfileResult,
    k: ProfileKind,
    t: DataTable,
    view: Seq<usize>,
    col: int,
    o: crate::format::FormatOptions,
) -> bool {
    if !(0 <= col < t.columns@.len()) {
        match (k, r) {
            (ProfileKind::NullCount, ProfileResult::NullCount(x)) => x == Err::<usize, ProfileError>(ProfileError::ColumnMissing),
            (ProfileKind::SummaryStats, ProfileResult::SummaryStats(x)) => x == Err::<SummaryStats, ProfileError>(ProfileError::ColumnMissing),
            (ProfileKind::Histogram { .. }, ProfileResult::Histogram(x)) => x is Err && x->Err_0 == ProfileError::ColumnMissing,
            (ProfileKind::FrequencyTable { .. }, ProfileResult::FrequencyTable(x)) => x is Err && x->Err_0
                == ProfileError::ColumnMissing,
            _ => false,
        }
    } else {
        let cs = view_cells(t, view, col);
        match (k, r) {
            (ProfileKind::NullCount, ProfileResult::NullCount(x)) => x == Ok::<usize, ProfileError>(count_missing(cs) as usize),
            (ProfileKind::SummaryStats, ProfileResult::SummaryStats(x)) => summary_matches(x, t.columns@[col].kind, cs),
            (ProfileKind::Histogram { num_bins }, ProfileResult::Histogram(x)) => {
                let kind = t.columns@[col].kind;
                if !(kind == ColumnKind::Number || kind == ColumnKind::Integer) {
                    x is Err && x->Err_0 == ProfileError::UnsupportedType
                } else if num_bins == 0 {
                    x is Err && x->Err_0 == ProfileError::NoBins
                } else if !histogram_fits(numbers_of(cs), num_bins as int) {
                    x is Err && x->Err_0 == ProfileError::Overflow
                } else {
                    x is Ok && histogram_of(x->Ok_0, numbers_of(cs), num_bins as int)
                }
            },
            (ProfileKind::FrequencyTable { limit }, ProfileResult::FrequencyTable(x)) => x is Ok
                && frequency_of(x->Ok_0, cs, limit as int, t.columns@[col].kind, o),
            _ => false,
        }
    }
}

proof fn lemma_count_missing_le(cs: Seq<CellValue>)
    ensures
        count_missing(cs) <= cs.len(),
    decreases cs.len(),
{
    if cs.len() > 0 {
        lemma_count_missing_le(cs.drop_last());
    }
}

impl ViewSession {
    /// Computes one profile of one column over the view.
    pub fn column_profile(&self, col: usize, k: ProfileKind, o: &crate::format::FormatOptions) -> (r:
        ProfileResult)
        requires
            self.wf(),
        ensures
            profile_answers(r, k, self.table(), self.view(), col as int, *o),
    {
        let t = self.source();
        let view = self.view_rows();
        if col >= t.columns.len() {
            return match k {
                ProfileKind::NullCount => ProfileResult::NullCount(Err(ProfileError::ColumnMissing)),
                ProfileKind::SummaryStats => ProfileResult::SummaryStats(Err(ProfileError::ColumnMissing)),
                ProfileKind::Histogram { .. } => ProfileResult::Histogram(Err(ProfileError::ColumnMissing)),
                ProfileKind::FrequencyTable { .. } => ProfileResult::FrequencyTable(
                    Err(ProfileError::ColumnMissing),
                ),
            };
        }
        proof {
            self.lemma_view_rows_bounded();
        }
        match k {
            ProfileKind::NullCount => ProfileResult::NullCount(Ok(null_count(t, view, col))),
            ProfileKind::SummaryStats => ProfileResult::SummaryStats(summary_stats(t, view, col)),
            ProfileKind::Histogram { num_bins } => {
                let kind = t.columns[col].kind;
                if !(kind == ColumnKind::Number || kind == ColumnKind::Integer) {
                    return ProfileResult::Histogram(Err(ProfileError::UnsupportedType));
                }
                if num_bins == 0 {
                    return ProfileResult::Histogram(Err(ProfileError::NoBins));
                }
                let v = collect_numbers(t, view, col);
                match histogram(&v, num_bins) {
                    Some(h) => ProfileResult::Histogram(Ok(h)),
                    None => ProfileResult::Histogram(Err(ProfileError::Overflow)),
                }
            },
            ProfileKind::FrequencyTable { limit } => ProfileResult::FrequencyTable(
                Ok(frequency_table(t, view, col, limit, o)),
            ),
        }
    }

    /// Computes every requested profile of one column, each on its own: a
    /// failure of one does not affect the others.
    pub fn get_column_profiles(&self, req: &ColumnProfileRequest, o: &crate::format::FormatOptions) -> (r:
        Vec<ProfileResult>)
        requires
            self.wf(),
        ensures
            r@.len() == req.profiles@.len(),
            forall|i: int|
                0 <= i < r@.len() ==> profile_answers(
                    #[trigger] r@[i],
                    req.profiles@[i],
                    self.table(),
                    self.view(),
                    req.column_index as int,
                    *o,
                ),
    {
        let mut out: Vec<ProfileResult> = Vec::new();
        let mut i: usize = 0;
        while i < req.profiles.len()
            invariant
                self.wf(),
                0 <= i <= req.profiles@.len(),
                out@.len() == i,
                forall|q: int|
                    0 <= q < i ==> profile_answers(
                        #[trigger] out@[q],
                        req.profiles@[q],
                        self.table(),
                        self.view(),
                        req.column_index as int,
                        *o,
                    ),
            decreases req.profiles.len() - i,
        {
            out.push(self.column_profile(req.column_index, req.profiles[i], o));
            i = i + 1;
        }
        out
    }
}

} // verus!
