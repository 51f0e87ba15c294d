//! Histograms of numeric columns: equal-width bins on human-friendly
//! edges.
use vstd::prelude::*;
use vstd::arithmetic::div_mod::lemma_hoist_over_denominator;
use crate::profile::{ints, max_of, min_of};

verus! {

/// The first of `p`, `2p`, `5p`, `10p`, `20p`, `50p`, ... that reaches
/// `target`.
pub open spec fn nice_from(target: int, p: int) -> int
    decreases if target > p {
        target - p
    } else {
        0
    },
{
    if p <= 0 || p >= target {
        p
    } else if 2 * p >= target {
        2 * p
    } else if 5 * p >= target {
        5 * p
    } else {
        nice_from(target, 10 * p)
    }
}

/// The bin width: the first human-friendly width (one, two or five times
/// a power of ten millionths) with which `bins` bins span `lo..hi`.
pub open spec fn bin_width(lo: int, hi: int, bins: int) -> int {
    nice_from((hi - lo + bins - 1) / bins, 1)
}

/// The first edge: `lo` rounded down to a multiple of the width.
pub open spec fn bin_start(lo: int, w: int) -> int {
    (lo / w) * w
}

/// How many of the values lie in `[a, b)`.
pub open spec fn count_in(s: Seq<int>, a: int, b: int) -> nat
    decreases s.len(),
{
    if s.len() == 0 {
        0
    } else {
        count_in(s.drop_last(), a, b) + if a <= s.last() < b {
            1nat
        } else {
            0
        }
    }
}

/// A histogram: `bin_counts[i]` values lie between `bin_edges[i]`
/// (included) and `bin_edges[i + 1]` (excluded).
#[derive(Clone, Debug)]
pub struct Histogram {
    pub bin_edges: Vec<i64>,
    pub bin_counts: Vec<usize>,
}

/// `h` is the histogram of `s` with at most about `bins` bins: no bins for
/// no values; one bin when all values are equal; else edges every
/// `bin_width` from `bin_start`, up past the largest value.
pub open spec fn histogram_of(h: Histogram, s: Seq<int>, bins: int) -> bool {
    if s.len() == 0 {
        h.bin_edges@.len() == 0 && h.bin_counts@.len() == 0
    } else if min_of(s) == max_of(s) {
        h.bin_edges@ == seq![min_of(s) as i64, max_of(s) as i64] && h.bin_counts@ == seq![
            s.len() as usize,
        ]
    } else {
        let w = bin_width(min_of(s), max_of(s), bins);
        let start = bin_start(min_of(s), w);
        let nb = (max_of(s) - start) / w + 1;
        &&& h.bin_edges@.len() == nb + 1
        &&& h.bin_counts@.len() == nb
        &&& forall|i: int| 0 <= i <= nb ==> #[trigger] h.bin_edges@[i] == start + i * w
        &&& forall|i: int|
            0 <= i < nb ==> #[trigger] h.bin_counts@[i] == count_in(s, start + i * w, start + (i + 1) * w)
    }
}

/// The edges of `s`'s histogram fit in 64 bits.
pub open spec fn histogram_fits(s: Seq<int>, bins: int) -> bool {
    s.len() > 0 && min_of(s) != max_of(s) ==> {
        let w = bin_width(min_of(s), max_of(s), bins);
        let start = bin_start(min_of(s), w);
        i64::MIN <= start && start + ((max_of(s) - start) / w + 1) * w <= i64::MAX
    }
}

proof fn lemma_min_max(s: Seq<int>)
    requires
        s.len() > 0,
    ensures
        forall|i: int| 0 <= i < s.len() ==> min_of(s) <= #[trigger] s[i] <= max_of(s),
        exists|i: int| 0 <= i < s.len() && s[i] == min_of(s),
        exists|i: int| 0 <= i < s.len() && s[i] == max_of(s),
    decreases s.len(),
{
    if s.len() == 1 {
        assert(s[0] == min_of(s) && s[0] == max_of(s));
    }
    if s.len() > 1 {
        lemma_min_max(s.drop_last());
        let p = s.drop_last();
        assert forall|i: int| 0 <= i < s.len() implies min_of(s) <= #[trigger] s[i] <= max_of(s) by {
            if i < p.len() {
                assert(s[i] == p[i]);
            }
        }
        let a = choose|i: int| 0 <= i < p.len() && p[i] == min_of(p);
        let b = choose|i: int| 0 <= i < p.len() && p[i] == max_of(p);
        assert(s[a] == p[a] && s[b] == p[b]);
        assert(s[s.len() - 1] == s.last());
        if s.last() < min_of(p) {
            assert(s[s.len() - 1] == min_of(s));
        } else {
            assert(s[a] == min_of(s));
        }
        if s.last() > max_of(p) {
            assert(s[s.len() - 1] == max_of(s));
        } else {
            assert(s[b] == max_of(s));
        }
    }
}

fn count_between(v: &Vec<i64>, a: i128, b: i128) -> (r: usize)
    ensures
        r == count_in(ints(v@), a as int, b as int),
{
    let ghost s = ints(v@);
    let mut n: usize = 0;
    let mut i: usize = 0;
    while i < v.len()
        invariant
            s == ints(v@),
            0 <= i <= v@.len(),
            n <= i,
            n == count_in(s.subrange(0, i as int), a as int, b as int),
        decreases v.len() - i,
    {
        assert(s.subrange(0, i + 1).drop_last() =~= s.subrange(0, i as int));
        let x = v[i] as i128;
        if a <= x && x < b {
            n = n + 1;
        }
        i = i + 1;
    }
    assert(s.subrange(0, v@.len() as int) =~= s);
    n
}

fn nice_width(target: i128) -> (r: i128)
    requires
        1 <= target <= 0x1_0000_0000_0000_0000,
    ensures
        r == nice_from(target as int, 1),
        target <= r <= 10 * target,
{
    let mut p: i128 = 1;
    assert(nice_from(target as int, 1) == nice_from(target as int, p as int));
    loop
        invariant
            1 <= target <= 0x1_0000_0000_0000_0000,
            1 <= p <= target * 10,
            nice_from(target as int, 1) == nice_from(target as int, p as int),
        decreases 10 * target - p,
    {
        if p >= target {
            return p;
        }
        if 2 * p >= target {
            return 2 * p;
        }
        if 5 * p >= target {
            return 5 * p;
        }
        p = 10 * p;
    }
}

/// The histogram of the numbers `v` with about `bins` bins; `None` when an
/// edge would not fit in 64 bits.
#[verifier::rlimit(40)]
pub fn histogram(v: &Vec<i64>, bins: usize) -> (r: Option<Histogram>)
    requires
        bins >= 1,
    ensures
        r is Some <==> histogram_fits(ints(v@), bins as int),
        r is Some ==> histogram_of(r->0, ints(v@), bins as int),
{
    let ghost s = ints(v@);
    if v.len() == 0 {
        return Some(Histogram { bin_edges: Vec::new(), bin_counts: Vec::new() });
    }
    let mut lo: i64 = v[0];
    let mut hi: i64 = v[0];
    let mut i: usize = 1;
    assert(s.subrange(0, 1) =~= seq![s[0]]);
    while i < v.len()
        invariant
            s == ints(v@),
            1 <= i <= v@.len(),
            lo == min_of(s.subrange(0, i as int)),
            hi == max_of(s.subrange(0, i as int)),
        decreases v.len() - i,
    {
        assert(s.subrange(0, i + 1).drop_last() =~= s.subrange(0, i as int));
        if v[i] < lo {
            lo = v[i];
        }
        if v[i] > hi {
            hi = v[i];
        }
        i = i + 1;
    }
    assert(s.subrange(0, v@.len() as int) =~= s);
    proof {
        lemma_min_max(s);
    }
    if lo == hi {
        let n = count_between(v, lo as i128, lo as i128 + 1);
        proof {
            lemma_count_all(s, lo as int);
        }
        let r = Histogram { bin_edges: vec![lo, hi], bin_counts: vec![v.len()] };
        assert(r.bin_edges@ =~= seq![min_of(s) as i64, max_of(s) as i64]);
        assert(r.bin_counts@ =~= seq![s.len() as usize]);
        return Some(r);
    }
    let range: i128 = hi as i128 - lo as i128;
    let b: i128 = bins as i128;
    let target: i128 = (range + b - 1) / b;
    assert(1 <= target <= range) by (nonlinear_arith)
        requires
            target == (range as int + b as int - 1) / (b as int),
            range >= 1,
            b >= 1,
    ;
    let w = nice_width(target);
    proof {
        lemma_start_bounds(lo as int, w as int);
    }
    let start: i128 = if lo >= 0 {
        (lo as i128 / w) * w
    } else {
        let k: i128 = (-(lo as i128)) / w + 1;
        proof {
            lemma_hoist_over_denominator(lo as int, k as int, w as nat);
            assert(k * w >= -(lo as int)) by (nonlinear_arith)
                requires
                    k == (-(lo as int)) / (w as int) + 1,
                    w >= 1,
                    lo < 0,
            ;
            assert(k * w <= -(lo as int) + w) by (nonlinear_arith)
                requires
                    k == (-(lo as int)) / (w as int) + 1,
                    w >= 1,
                    lo < 0,
            ;
        }
        ((lo as i128 + k * w) / w - k) * w
    };
    assert(start == bin_start(lo as int, w as int));
    proof {
        lemma_start_bounds(lo as int, w as int);
    }
    let nb: i128 = (hi as i128 - start) / w + 1;
    proof {
        lemma_bins_bound(lo as int, hi as int, start as int, w as int, target as int, b as int);
    }
    assert(nb * w <= (hi - start) + w) by (nonlinear_arith)
        requires
            nb == (hi - start) / (w as int) + 1,
            w >= 1,
            hi - start >= 0,
    ;
    assert(w <= 10 * range);
    let top: i128 = start + nb * w;
    if start < i64::MIN as i128 || top > i64::MAX as i128 {
        return None;
    }
    let mut edges: Vec<i64> = Vec::new();
    let mut counts: Vec<usize> = Vec::new();
    let mut j: i128 = 0;
    while j <= nb
        invariant
            s == ints(v@),
            b == bins as i128,
            0 <= j <= nb + 1,
            1 <= nb <= b + 1,
            1 <= w <= 10 * 0x1_0000_0000_0000_0000,
            start <= lo,
            start + nb * w <= i64::MAX,
            start >= i64::MIN,
            nb * w <= 0x1_0000_0000_0000_0000_0000,
            edges@.len() == j,
            counts@.len() == if j == 0 { 0 } else { j - 1 },
            forall|q: int| 0 <= q < j ==> #[trigger] edges@[q] == start + q * w,
            forall|q: int|
                0 <= q < counts@.len() ==> #[trigger] counts@[q] == count_in(s, start + q * w, start + (q + 1) * w),
        decreases nb + 1 - j,
    {
        assert(start + j * w <= start + nb * w) by (nonlinear_arith)
            requires
                j <= nb,
                w >= 1,
        ;
        assert(start + j * w >= start) by (nonlinear_arith)
            requires
                j >= 0,
                w >= 1,
        ;
        let e: i128 = start + j * w;
        edges.push(e as i64);
        if j > 0 {
            assert(start <= start + (j - 1) * w <= start + nb * w) by (nonlinear_arith)
                requires
                    1 <= j <= nb,
                    w >= 1,
            ;
            let c = count_between(v, start + (j - 1) * w, e);
            counts.push(c);
        }
        j = j + 1;
    }
    Some(Histogram { bin_edges: edges, bin_counts: counts })
}

proof fn lemma_count_all(s: Seq<int>, x: int)
    requires
        forall|i: int| 0 <= i < s.len() ==> #[trigger] s[i] == x,
    ensures
        count_in(s, x, x + 1) == s.len(),
    decreases s.len(),
{
    if s.len() > 0 {
        lemma_count_all(s.drop_last(), x);
    }
}

proof fn lemma_start_bounds(lo: int, w: int)
    requires
        w >= 1,
    ensures
        lo - w < bin_start(lo, w) <= lo,
{
    assert(lo - w < (lo / w) * w <= lo) by (nonlinear_arith)
        requires
            w >= 1,
    ;
}

proof fn lemma_bins_bound(lo: int, hi: int, start: int, w: int, target: int, b: int)
    requires
        lo < hi,
        b >= 1,
        target == (hi - lo + b - 1) / b,
        w >= target,
        w >= 1,
        lo - w < start <= lo,
    ensures
        1 <= (hi - start) / w + 1 <= b + 1,
{
    assert(target * b >= hi - lo) by (nonlinear_arith)
        requires
            target == (hi - lo + b - 1) / b,
            b >= 1,
    ;
    assert(w * b >= hi - lo) by (nonlinear_arith)
        requires
            target * b >= hi - lo,
            w >= target,
            b >= 1,
    ;
    assert((hi - start) / w <= b) by (nonlinear_arith)
        requires
            hi - start < hi - lo + w,
            w * b >= hi - lo,
            w >= 1,
            hi - start >= 0,
    ;
    assert((hi - start) / w >= 0) by (nonlinear_arith)
        requires
            hi - start >= 0,
            w >= 1,
    ;
}

} // verus!
