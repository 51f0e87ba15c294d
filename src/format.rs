//! Rendering of cell values for display and export.
use vstd::prelude::*;
use vstd::arithmetic::div_mod::lemma_hoist_over_denominator;
use crate::table::{CellValue, ColumnKind, SpecialValue};
use crate::text::{chars_of, string_of};

verus! {

/// How values are rendered.
#[derive(Clone, Debug)]
pub struct FormatOptions {
    /// Decimal places for numbers of magnitude at least one, and zero.
    pub large_num_digits: usize,
    /// Decimal places for numbers of magnitude below one.
    pub small_num_digits: usize,
    /// Integral digits up to which numbers are written in full.
    pub max_integral_digits: usize,
    /// Separator between groups of three integral digits.
    pub thousands_sep: Option<String>,
    /// Characters of text kept; longer text is cut.
    pub max_value_length: usize,
}

/// Codes for values that are not rendered as text.
#[derive(Clone, Copy, Debug, PartialEq, Eq, Structural)]
pub enum SpecialCode {
    Na,
    NaN,
    PosInf,
    NegInf,
}

impl SpecialCode {
    /// The wire code of the special value.
    pub fn code(&self) -> (r: u8)
        ensures
            r == match *self {
                SpecialCode::Na => 1u8,
                SpecialCode::NaN => 2u8,
                SpecialCode::PosInf => 10u8,
                SpecialCode::NegInf => 11u8,
            },
    {
        match self {
            SpecialCode::Na => 1,
            SpecialCode::NaN => 2,
            SpecialCode::PosInf => 10,
            SpecialCode::NegInf => 11,
        }
    }
}

/// A rendered cell.
#[derive(Clone, Debug)]
pub enum FormattedValue {
    Text(String),
    Special(SpecialCode),
}

pub open spec fn digit_char(d: int) -> char {
    ((d + 48) as u32) as char
}

/// The decimal digits of `n`, most significant first.
pub open spec fn digits_of(n: nat) -> Seq<char>
    decreases n,
{
    if n < 10 {
        seq![digit_char(n as int)]
    } else {
        digits_of(n / 10).push(digit_char((n % 10) as int))
    }
}

/// `ds` with `sep` between groups of three, counted from the right.
pub open spec fn group3(ds: Seq<char>, sep: Seq<char>) -> Seq<char>
    decreases ds.len(),
{
    if ds.len() <= 3 {
        ds
    } else {
        group3(ds.subrange(0, ds.len() - 3), sep) + sep + ds.subrange(ds.len() - 3, ds.len() as int)
    }
}

pub open spec fn zeros(n: nat) -> Seq<char> {
    Seq::new(n, |i: int| '0')
}

pub open spec fn pow10n(n: nat) -> nat
    decreases n,
{
    if n == 0 {
        1
    } else {
        10 * pow10n((n - 1) as nat)
    }
}

pub open spec fn abs(v: int) -> nat {
    if v < 0 {
        (-v) as nat
    } else {
        v as nat
    }
}

/// A number of millionths rounded to `d` decimal places, half away from zero.
pub open spec fn rounded(v: int, d: nat) -> nat {
    let unit = pow10n((6 - d) as nat);
    ((abs(v) + unit / 2) / unit) as nat
}

/// The fraction digits of a rounded value, left-padded with zeros.
pub open spec fn fraction_text(q: nat, d: nat) -> Seq<char> {
    let f = digits_of(q % pow10n(d));
    zeros((d - f.len()) as nat) + f
}

/// A number of millionths written with `d` decimal places (at most six)
/// and `sep` between thousands.
pub open spec fn fixed_text(v: int, d: nat, sep: Seq<char>) -> Seq<char> {
    let q = rounded(v, d);
    let sign = if v < 0 && q != 0 {
        seq!['-']
    } else {
        Seq::empty()
    };
    let ip = group3(digits_of(q / pow10n(d)), sep);
    if d == 0 {
        sign + ip
    } else {
        sign + ip + seq!['.'] + fraction_text(q, d)
    }
}

fn digit(d: u64) -> (r: char)
    requires
        d < 10,
    ensures
        r == digit_char(d as int),
{
    ((d as u8) + 48) as char
}

pub(crate) fn push_digits(n: u64, out: &mut Vec<char>)
    ensures
        final(out)@ == old(out)@ + digits_of(n as nat),
    decreases n,
{
    if n >= 10 {
        push_digits(n / 10, out);
    }
    let c = digit(n % 10);
    out.push(c);
    proof {
        if n >= 10 {
            assert(digits_of(n as nat) == digits_of((n / 10) as nat).push(digit_char((n % 10) as int)));
        }
    }
    assert(final(out)@ =~= old(out)@ + digits_of(n as nat));
}

pub(crate) fn push_range(src: &Vec<char>, from: usize, to: usize, out: &mut Vec<char>)
    requires
        from <= to <= src@.len(),
    ensures
        final(out)@ == old(out)@ + src@.subrange(from as int, to as int),
{
    let mut i = from;
    while i < to
        invariant
            from <= i <= to <= src@.len(),
            out@ == old(out)@ + src@.subrange(from as int, i as int),
        decreases to - i,
    {
        out.push(src[i]);
        i = i + 1;
        assert(out@ =~= old(out)@ + src@.subrange(from as int, i as int));
    }
}

fn push_grouped(ds: &Vec<char>, end: usize, sep: &Vec<char>, out: &mut Vec<char>)
    requires
        end <= ds@.len(),
    ensures
        final(out)@ == old(out)@ + group3(ds@.subrange(0, end as int), sep@),
    decreases end,
{
    let ghost pre = ds@.subrange(0, end as int);
    if end <= 3 {
        push_range(ds, 0, end, out);
    } else {
        push_grouped(ds, end - 3, sep, out);
        push_range(sep, 0, sep.len(), out);
        push_range(ds, end - 3, end, out);
        assert(pre.subrange(0, pre.len() - 3) =~= ds@.subrange(0, end - 3));
        assert(pre.subrange(pre.len() - 3, pre.len() as int) =~= ds@.subrange(end - 3, end as int));
        assert(sep@.subrange(0, sep@.len() as int) =~= sep@);
        assert(final(out)@ =~= old(out)@ + group3(pre, sep@));
    }
}

fn pow10_exec(n: usize) -> (r: u64)
    requires
        n <= 6,
    ensures
        r == pow10n(n as nat),
        1 <= r <= 1000000,
{
    let mut r: u64 = 1;
    let mut i: usize = 0;
    while i < n
        invariant
            0 <= i <= n <= 6,
            r == pow10n(i as nat),
        decreases n - i,
    {
        proof {
            reveal_with_fuel(pow10n, 7);
        }
        r = r * 10;
        i = i + 1;
    }
    proof {
        reveal_with_fuel(pow10n, 7);
    }
    r
}

proof fn lemma_digits_fit(n: nat, d: nat)
    requires
        n < pow10n(d),
        d >= 1,
    ensures
        digits_of(n).len() <= d,
    decreases n,
{
    if n >= 10 {
        assert(pow10n(d) == 10 * pow10n((d - 1) as nat));
        assert(n / 10 < pow10n((d - 1) as nat));
        if d == 1 {
            assert(pow10n(0) == 1);
        } else {
            lemma_digits_fit(n / 10, (d - 1) as nat);
        }
    }
}

fn pow10_big(n: usize) -> (r: u64)
    requires
        n <= 19,
    ensures
        r == pow10n(n as nat),
        r >= 1,
{
    let mut r: u64 = 1;
    let mut i: usize = 0;
    while i < n
        invariant
            0 <= i <= n <= 19,
            r == pow10n(i as nat),
            r >= 1,
        decreases n - i,
    {
        proof {
            reveal_with_fuel(pow10n, 20);
        }
        r = r * 10;
        i = i + 1;
    }
    r
}

proof fn lemma_digits_nonempty(n: nat)
    ensures
        digits_of(n).len() >= 1,
    decreases n,
{
    if n >= 10 {
        lemma_digits_nonempty(n / 10);
    }
}

/// The mantissa and exponent of `x` millionths, whole part at least one.
fn sci_mantissa(x: u64, d: usize) -> (r: (u64, usize))
    requires
        d <= 6,
        x >= 1000000,
        x <= 9223372036854775808,
    ensures
        (r.0 as nat, r.1 as nat) == sci_parts(x as nat, d as nat),
        r.1 <= 13,
{
    let whole = x / 1000000;
    let mut wd: Vec<char> = Vec::new();
    push_digits(whole, &mut wd);
    assert(wd@ =~= digits_of(whole as nat));
    proof {
        lemma_digits_nonempty(whole as nat);
        reveal_with_fuel(pow10n, 14);
        assert(whole < pow10n(13));
        lemma_digits_fit(whole as nat, 13);
    }
    let e: usize = wd.len() - 1;
    let unit = pow10_big(6 + e - d);
    let m0: u64 = (x + unit / 2) / unit;
    let top = pow10_big(d + 1);
    if m0 >= top {
        (m0 / 10, e + 1)
    } else {
        (m0, e)
    }
}

/// Writes `[-]D.DDe+EE` from a mantissa scaled by `10^d` and an exponent.
fn push_sci(neg: bool, m: u64, d: usize, ex: usize, out: &mut Vec<char>)
    requires
        d <= 6,
    ensures
        final(out)@ == old(out)@ + (if neg {
            seq!['-']
        } else {
            Seq::empty()
        }) + (if d == 0 {
            digits_of((m as nat) / pow10n(d as nat))
        } else {
            digits_of((m as nat) / pow10n(d as nat)) + seq!['.'] + fraction_text(m as nat, d as nat)
        }) + seq!['e', '+'] + padded(ex as nat, 2),
{
    let ghost start = out@;
    let scale = pow10_big(d);
    if neg {
        out.push('-');
    }
    push_digits(m / scale, out);
    if d > 0 {
        out.push('.');
        let mut fs: Vec<char> = Vec::new();
        push_digits(m % scale, &mut fs);
        assert(fs@ =~= digits_of((m % scale) as nat));
        proof {
            lemma_digits_fit((m % scale) as nat, d as nat);
        }
        let mut k: usize = fs.len();
        let ghost before = out@;
        while k < d
            invariant
                fs@.len() <= k <= d,
                out@ == before + zeros((k - fs@.len()) as nat),
            decreases d - k,
        {
            out.push('0');
            k = k + 1;
            assert(out@ =~= before + zeros((k - fs@.len()) as nat));
        }
        push_range(&fs, 0, fs.len(), out);
        assert(fs@.subrange(0, fs@.len() as int) =~= fs@);
    }
    out.push('e');
    out.push('+');
    push_padded(ex as u64, 2, out);
    assert(final(out)@ =~= start + (if neg {
        seq!['-']
    } else {
        Seq::empty()
    }) + (if d == 0 {
        digits_of((m as nat) / pow10n(d as nat))
    } else {
        digits_of((m as nat) / pow10n(d as nat)) + seq!['.'] + fraction_text(m as nat, d as nat)
    }) + seq!['e', '+'] + padded(ex as nat, 2));
}

/// Writes a number of millionths in scientific notation with `d` decimal
/// places; its whole part is at least one.
fn sci_chars(v: i64, d: usize) -> (r: Vec<char>)
    requires
        d <= 6,
        abs(v as int) >= 1000000,
    ensures
        r@ == sci_text(v as int, d as nat),
{
    let x: u64 = if v < 0 {
        if v == i64::MIN {
            9223372036854775808u64
        } else {
            (-v) as u64
        }
    } else {
        v as u64
    };
    assert(x == abs(v as int));
    let (m, ex) = sci_mantissa(x, d);
    let mut out: Vec<char> = Vec::new();
    push_sci(v < 0, m, d, ex, &mut out);
    assert(out@ =~= sci_text(v as int, d as nat));
    out
}

/// Writes a number of millionths with `d` decimal places.
#[verifier::rlimit(50)]
pub fn fixed_chars(v: i64, d: usize, sep: &Vec<char>) -> (r: Vec<char>)
    requires
        d <= 6,
    ensures
        r@ == fixed_text(v as int, d as nat, sep@),
{
    let mag: u64 = if v < 0 {
        if v == i64::MIN {
            9223372036854775808u64
        } else {
            (-v) as u64
        }
    } else {
        v as u64
    };
    assert(mag == abs(v as int));
    let unit = pow10_exec(6 - d);
    let q: u64 = (mag + unit / 2) / unit;
    let scale = pow10_exec(d);
    let ip = q / scale;
    let fp = q % scale;
    let mut out: Vec<char> = Vec::new();
    if v < 0 && q != 0 {
        out.push('-');
    }
    let mut ds: Vec<char> = Vec::new();
    push_digits(ip, &mut ds);
    assert(ds@ =~= digits_of(ip as nat));
    push_grouped(&ds, ds.len(), sep, &mut out);
    assert(ds@.subrange(0, ds@.len() as int) =~= ds@);
    if d > 0 {
        out.push('.');
        let mut fs: Vec<char> = Vec::new();
        push_digits(fp, &mut fs);
        assert(fs@ =~= digits_of(fp as nat));
        proof {
            lemma_digits_fit(fp as nat, d as nat);
        }
        let mut k: usize = fs.len();
        let ghost before = out@;
        while k < d
            invariant
                fs@.len() <= k <= d,
                out@ == before + zeros((k - fs@.len()) as nat),
            decreases d - k,
        {
            out.push('0');
            k = k + 1;
            assert(out@ =~= before + zeros((k - fs@.len()) as nat));
        }
        push_range(&fs, 0, fs.len(), &mut out);
        assert(fs@.subrange(0, fs@.len() as int) =~= fs@);
    }
    assert(out@ =~= fixed_text(v as int, d as nat, sep@));
    out
}

/// `x` written with at least `w` digits.
pub open spec fn padded(x: nat, w: nat) -> Seq<char> {
    let ds = digits_of(x);
    if ds.len() < w {
        zeros((w - ds.len()) as nat) + ds
    } else {
        ds
    }
}

fn push_padded(x: u64, w: usize, out: &mut Vec<char>)
    ensures
        final(out)@ == old(out)@ + padded(x as nat, w as nat),
{
    let mut ds: Vec<char> = Vec::new();
    push_digits(x, &mut ds);
    assert(ds@ =~= digits_of(x as nat));
    let ghost before = out@;
    let mut k: usize = ds.len();
    while k < w
        invariant
            ds@.len() <= k,
            k <= w || k == ds@.len(),
            out@ == before + zeros((k - ds@.len()) as nat),
        decreases w - k,
    {
        out.push('0');
        k = k + 1;
        assert(out@ =~= before + zeros((k - ds@.len()) as nat));
    }
    push_range(&ds, 0, ds.len(), out);
    assert(ds@.subrange(0, ds@.len() as int) =~= ds@);
    assert(final(out)@ =~= old(out)@ + padded(x as nat, w as nat));
}

/// The civil date (year, month, day) of a day count from 1970-01-01.
pub open spec fn civil_from_days(days: int) -> (int, int, int) {
    let z = days + 719468;
    let era = z / 146097;
    let doe = z - era * 146097;
    let yoe = (doe - doe / 1460 + doe / 36524 - doe / 146096) / 365;
    let doy = doe - (365 * yoe + yoe / 4 - yoe / 100);
    let mp = (5 * doy + 2) / 153;
    let d = doy - (153 * mp + 2) / 5 + 1;
    let m = if mp < 10 {
        mp + 3
    } else {
        mp - 9
    };
    let y = yoe + era * 400 + if m <= 2 {
        1int
    } else {
        0
    };
    (y, m, d)
}

pub open spec fn signed_padded(x: int, w: nat) -> Seq<char> {
    if x < 0 {
        seq!['-'] + padded(abs(x), w)
    } else {
        padded(x as nat, w)
    }
}

/// A day count written `YYYY-MM-DD`.
pub open spec fn date_text(days: int) -> Seq<char> {
    let (y, m, d) = civil_from_days(days);
    signed_padded(y, 4) + seq!['-'] + padded(m as nat, 2) + seq!['-'] + padded(d as nat, 2)
}

/// A second count written `YYYY-MM-DD HH:MM:SS`.
pub open spec fn datetime_text(secs: int) -> Seq<char> {
    let days = secs / 86400;
    let rem = secs - days * 86400;
    date_text(days) + seq![' '] + padded((rem / 3600) as nat, 2) + seq![':'] + padded(
        ((rem % 3600) / 60) as nat,
        2,
    ) + seq![':'] + padded((rem % 60) as nat, 2)
}

proof fn lemma_doe_bounds(z: int)
    ensures
        0 <= z - (z / 146097) * 146097 < 146097,
{
}

proof fn lemma_yoe_bounds(doe: int)
    requires
        0 <= doe < 146097,
    ensures
        0 <= (doe - doe / 1460 + doe / 36524 - doe / 146096) / 365 <= 399,
        ({
            let yoe = (doe - doe / 1460 + doe / 36524 - doe / 146096) / 365;
            0 <= doe - (365 * yoe + yoe / 4 - yoe / 100) <= 365
        }),
{
    let yoe = (doe - doe / 1460 + doe / 36524 - doe / 146096) / 365;
    assert(0 <= yoe <= 399);
    assert(0 <= doe - (365 * yoe + yoe / 4 - yoe / 100) <= 365) by (nonlinear_arith)
        requires
            0 <= doe < 146097,
            yoe == (doe - doe / 1460 + doe / 36524 - doe / 146096) / 365,
            0 <= yoe <= 399,
    ;
}

proof fn lemma_month_day_bounds(doy: int)
    requires
        0 <= doy <= 365,
    ensures
        0 <= (5 * doy + 2) / 153 <= 11,
        1 <= doy - (153 * ((5 * doy + 2) / 153) + 2) / 5 + 1 <= 31,
{
    let mp = (5 * doy + 2) / 153;
    assert(0 <= mp <= 11);
    assert(1 <= doy - (153 * mp + 2) / 5 + 1 <= 31) by (nonlinear_arith)
        requires
            0 <= doy <= 365,
            mp == (5 * doy + 2) / 153,
            0 <= mp <= 11,
    ;
}

#[verifier::rlimit(50)]
fn push_date(days: i64, out: &mut Vec<char>)
    ensures
        final(out)@ == old(out)@ + date_text(days as int),
{
    let k: i128 = 100000000000000;
    let z: i128 = days as i128 + 719468;
    proof {
        lemma_hoist_over_denominator(z as int, k as int, 146097);
    }
    let era: i128 = (z + k * 146097) / 146097 - k;
    proof {
        lemma_doe_bounds(z as int);
    }
    let doe: i128 = z - era * 146097;
    proof {
        lemma_yoe_bounds(doe as int);
    }
    let yoe: i128 = (doe - doe / 1460 + doe / 36524 - doe / 146096) / 365;
    let doy: i128 = doe - (365 * yoe + yoe / 4 - yoe / 100);
    proof {
        lemma_month_day_bounds(doy as int);
    }
    let mp: i128 = (5 * doy + 2) / 153;
    let d: i128 = doy - (153 * mp + 2) / 5 + 1;
    let m: i128 = if mp < 10 { mp + 3 } else { mp - 9 };
    let y: i128 = yoe + era * 400 + if m <= 2 { 1 } else { 0 };
    assert((y as int, m as int, d as int) == civil_from_days(days as int));
    assert(1 <= d <= 31 && 1 <= m <= 12);
    if y < 0 {
        out.push('-');
        assert(-y < 0x1_0000_0000_0000_0000);
        push_padded((-y) as u64, 4, out);
    } else {
        assert(y < 0x1_0000_0000_0000_0000);
        push_padded(y as u64, 4, out);
    }
    out.push('-');
    push_padded(m as u64, 2, out);
    out.push('-');
    push_padded(d as u64, 2, out);
    assert(final(out)@ =~= old(out)@ + date_text(days as int));
}

#[verifier::rlimit(50)]
fn push_datetime(secs: i64, out: &mut Vec<char>)
    ensures
        final(out)@ == old(out)@ + datetime_text(secs as int),
{
    let k: i128 = 200000000000000;
    let s: i128 = secs as i128;
    proof {
        lemma_hoist_over_denominator(s as int, k as int, 86400);
    }
    let days: i128 = (s + k * 86400) / 86400 - k;
    let rem: i128 = s - days * 86400;
    assert(0 <= rem < 86400);
    assert(i64::MIN <= days <= i64::MAX);
    push_date(days as i64, out);
    out.push(' ');
    push_padded((rem / 3600) as u64, 2, out);
    out.push(':');
    push_padded(((rem % 3600) / 60) as u64, 2, out);
    out.push(':');
    push_padded((rem % 60) as u64, 2, out);
    assert(final(out)@ =~= old(out)@ + datetime_text(secs as int));
}

/// The exponent of a magnitude of millionths whose whole part is at least
/// one: the number of whole digits less one.
pub open spec fn sci_exponent(x: nat) -> nat {
    (digits_of(x / 1000000).len() - 1) as nat
}

/// The mantissa of `x` millionths scaled by `10^d`, rounded half up, and
/// its exponent, after a carry to the next power of ten.
pub open spec fn sci_parts(x: nat, d: nat) -> (nat, nat) {
    let e = sci_exponent(x);
    let unit = pow10n((6 + e - d) as nat);
    let m = (x + unit / 2) / unit;
    if m >= pow10n(d + 1) {
        (m / 10, e + 1)
    } else {
        (m, e)
    }
}

/// A number in scientific notation with `d` decimal places, written
/// `[-]D.DDe+EE`.
pub open spec fn sci_text(v: int, d: nat) -> Seq<char> {
    let (m, e) = sci_parts(abs(v), d);
    let sign = if v < 0 {
        seq!['-']
    } else {
        Seq::empty()
    };
    let lead = digits_of(m / pow10n(d));
    let body = if d == 0 {
        lead
    } else {
        lead + seq!['.'] + fraction_text(m, d)
    };
    sign + body + seq!['e', '+'] + padded(e, 2)
}

/// How many whole digits a number shows with `d` decimal places.
pub open spec fn whole_digits(v: int, d: nat) -> nat {
    digits_of(rounded(v, d) / pow10n(d)).len()
}

pub open spec fn min_nat(a: nat, b: nat) -> nat {
    if a < b {
        a
    } else {
        b
    }
}

/// Decimal places for a number: zero and magnitudes of one or more take
/// the large count, others the small count; never more than six.
pub open spec fn number_digits(v: int, o: FormatOptions) -> nat {
    if v == 0 || abs(v) >= 1000000 {
        min_nat(o.large_num_digits as nat, 6)
    } else {
        min_nat(o.small_num_digits as nat, 6)
    }
}

pub open spec fn sep_of(o: FormatOptions) -> Seq<char> {
    match o.thousands_sep {
        Some(s) => s@,
        None => Seq::empty(),
    }
}

pub open spec fn truncated(s: Seq<char>, n: nat) -> Seq<char> {
    if s.len() > n {
        s.subrange(0, n as int)
    } else {
        s
    }
}

pub open spec fn bool_text(b: bool) -> Seq<char> {
    if b {
        seq!['T', 'R', 'U', 'E']
    } else {
        seq!['F', 'A', 'L', 'S', 'E']
    }
}

/// The code a cell renders as, when it renders as a code.
pub open spec fn special_of(c: CellValue) -> Option<SpecialCode> {
    match c {
        CellValue::Missing => Some(SpecialCode::Na),
        CellValue::Special(SpecialValue::NaN) => Some(SpecialCode::NaN),
        CellValue::Special(SpecialValue::PosInf) => Some(SpecialCode::PosInf),
        CellValue::Special(SpecialValue::NegInf) => Some(SpecialCode::NegInf),
        _ => None,
    }
}

/// The text a cell of a column of kind `k` renders as, when it renders as
/// text.
pub open spec fn cell_text(c: CellValue, k: ColumnKind, o: FormatOptions) -> Seq<char> {
    match c {
        CellValue::Number(v) => {
            let d = if k == ColumnKind::Integer {
                0
            } else {
                number_digits(v as int, o)
            };
            if abs(v as int) >= 1000000 && whole_digits(v as int, d) > o.max_integral_digits {
                sci_text(v as int, min_nat(o.large_num_digits as nat, 6))
            } else {
                fixed_text(v as int, d, sep_of(o))
            }
        },
        CellValue::Text(s) => truncated(s@, o.max_value_length as nat),
        CellValue::Boolean(b) => bool_text(b),
        CellValue::Temporal(v) => if k == ColumnKind::Datetime {
            datetime_text(v as int)
        } else {
            date_text(v as int)
        },
        _ => Seq::empty(),
    }
}

/// `r` is how cell `c` of a column of kind `k` renders.
pub open spec fn renders_as(r: FormattedValue, c: CellValue, k: ColumnKind, o: FormatOptions) -> bool {
    match r {
        FormattedValue::Special(code) => special_of(c) == Some(code),
        FormattedValue::Text(s) => special_of(c) is None && s@ == cell_text(c, k, o),
    }
}

/// Renders one cell.
pub fn format_cell(c: &CellValue, k: ColumnKind, o: &FormatOptions) -> (r: FormattedValue)
    ensures
        renders_as(r, *c, k, *o),
{
    let sep: Vec<char> = match &o.thousands_sep {
        Some(s) => chars_of(s.as_str()),
        None => Vec::new(),
    };
    assert(sep@ =~= sep_of(*o));
    match c {
        CellValue::Missing => FormattedValue::Special(SpecialCode::Na),
        CellValue::Special(SpecialValue::NaN) => FormattedValue::Special(SpecialCode::NaN),
        CellValue::Special(SpecialValue::PosInf) => FormattedValue::Special(SpecialCode::PosInf),
        CellValue::Special(SpecialValue::NegInf) => FormattedValue::Special(SpecialCode::NegInf),
        CellValue::Number(v) => {
            let d: usize = if k == ColumnKind::Integer {
                0
            } else {
                let big = *v == 0 || *v >= 1000000 || *v <= -1000000;
                let want = if big { o.large_num_digits } else { o.small_num_digits };
                if want < 6 { want } else { 6 }
            };
            let cs = fixed_chars(*v, d, &sep);
            let ghost q = rounded(*v as int, d as nat);
            let mut whole: Vec<char> = Vec::new();
            let mag: u64 = if *v < 0 {
                if *v == i64::MIN {
                    9223372036854775808u64
                } else {
                    (-*v) as u64
                }
            } else {
                *v as u64
            };
            let unit = pow10_exec(6 - d);
            let scale = pow10_exec(d);
            push_digits(((mag + unit / 2) / unit) / scale, &mut whole);
            assert(whole@ =~= digits_of(q / pow10n(d as nat)));
            let big = *v >= 1000000 || *v <= -1000000;
            if big && whole.len() > o.max_integral_digits {
                let sd: usize = if o.large_num_digits < 6 { o.large_num_digits } else { 6 };
                let sc = sci_chars(*v, sd);
                FormattedValue::Text(string_of(&sc))
            } else {
                FormattedValue::Text(string_of(&cs))
            }
        },
        CellValue::Text(s) => {
            let cs = chars_of(s.as_str());
            if cs.len() > o.max_value_length {
                let mut out: Vec<char> = Vec::new();
                push_range(&cs, 0, o.max_value_length, &mut out);
                assert(out@ =~= truncated(s@, o.max_value_length as nat));
                FormattedValue::Text(string_of(&out))
            } else {
                FormattedValue::Text(string_of(&cs))
            }
        },
        CellValue::Boolean(b) => {
            let cs: Vec<char> = if *b {
                vec!['T', 'R', 'U', 'E']
            } else {
                vec!['F', 'A', 'L', 'S', 'E']
            };
            assert(cs@ =~= bool_text(*b));
            FormattedValue::Text(string_of(&cs))
        },
        CellValue::Temporal(v) => {
            let mut out: Vec<char> = Vec::new();
            if k == ColumnKind::Datetime {
                push_datetime(*v, &mut out);
            } else {
                push_date(*v, &mut out);
            }
            assert(out@ =~= cell_text(*c, k, *o));
            FormattedValue::Text(string_of(&out))
        },
    }
}

} // verus!
