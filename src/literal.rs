//! Parsing of filter literals against a column's declared type.
use vstd::prelude::*;

verus! {

pub open spec fn is_digit(c: char) -> bool {
    '0' <= c && c <= '9'
}

pub open spec fn digit_val(c: char) -> int {
    c as int - '0' as int
}

pub open spec fn all_digits(s: Seq<char>) -> bool {
    forall|i: int| 0 <= i < s.len() ==> is_digit(#[trigger] s[i])
}

/// The value of a string of decimal digits, most significant first.
pub open spec fn digits_value(s: Seq<char>) -> int
    decreases s.len(),
{
    if s.len() == 0 {
        0
    } else {
        digits_value(s.drop_last()) * 10 + digit_val(s.last())
    }
}

/// The position of the first `.` in `s`, or its length when there is none.
pub open spec fn dot_pos(s: Seq<char>) -> int
    decreases s.len(),
{
    if s.len() == 0 {
        0
    } else if s[0] == '.' {
        0
    } else {
        1 + dot_pos(s.drop_first())
    }
}

pub open spec fn pow10(n: nat) -> int
    decreases n,
{
    if n == 0 {
        1
    } else {
        10 * pow10((n - 1) as nat)
    }
}

/// The sign-less part of a decimal literal.
pub open spec fn unsigned_part(s: Seq<char>) -> Seq<char> {
    if s.len() > 0 && s[0] == '-' {
        s.drop_first()
    } else {
        s
    }
}

/// A decimal literal: an optional `-`, one or more digits, and optionally
/// a `.` followed by one to six digits.
pub open spec fn decimal_well_formed(s: Seq<char>) -> bool {
    let b = unsigned_part(s);
    let p = dot_pos(b);
    let ip = b.subrange(0, p);
    &&& ip.len() > 0
    &&& all_digits(ip)
    &&& p < b.len() ==> {
        let fp = b.subrange(p + 1, b.len() as int);
        1 <= fp.len() <= 6 && all_digits(fp)
    }
}

/// The value of a well-formed decimal literal, in millionths.
pub open spec fn decimal_micros(s: Seq<char>) -> int {
    let b = unsigned_part(s);
    let p = dot_pos(b);
    let ipv = digits_value(b.subrange(0, p));
    let fpv = if p < b.len() {
        let fp = b.subrange(p + 1, b.len() as int);
        digits_value(fp) * pow10((6 - fp.len()) as nat)
    } else {
        0
    };
    let mag = ipv * 1000000 + fpv;
    if s.len() > 0 && s[0] == '-' {
        -mag
    } else {
        mag
    }
}

pub open spec fn fits_i64(v: int) -> bool {
    i64::MIN <= v <= i64::MAX
}

proof fn lemma_dot_pos(s: Seq<char>)
    ensures
        0 <= dot_pos(s) <= s.len(),
        forall|k: int| 0 <= k < dot_pos(s) ==> s[k] != '.',
        dot_pos(s) < s.len() ==> s[dot_pos(s)] == '.',
    decreases s.len(),
{
    if s.len() > 0 && s[0] != '.' {
        lemma_dot_pos(s.drop_first());
        assert forall|k: int| 0 <= k < dot_pos(s) implies s[k] != '.' by {
            if k > 0 {
                assert(s[k] == s.drop_first()[k - 1]);
            }
        }
    }
}

proof fn lemma_digits_nonneg(s: Seq<char>)
    requires
        all_digits(s),
    ensures
        digits_value(s) >= 0,
    decreases s.len(),
{
    if s.len() > 0 {
        assert(all_digits(s.drop_last()));
        lemma_digits_nonneg(s.drop_last());
        assert(is_digit(s[s.len() - 1]));
    }
}

proof fn lemma_digits_prefix_le(s: Seq<char>, i: int)
    requires
        all_digits(s),
        0 <= i <= s.len(),
    ensures
        digits_value(s.subrange(0, i)) <= digits_value(s),
    decreases s.len(),
{
    if i < s.len() {
        let d = s.drop_last();
        assert(all_digits(d));
        lemma_digits_prefix_le(d, i);
        assert(d.subrange(0, i) =~= s.subrange(0, i));
        lemma_digits_nonneg(d);
        assert(is_digit(s[s.len() - 1]));
    } else {
        assert(s.subrange(0, i) =~= s);
    }
}

/// Reads `s[from..to]` as decimal digits; `None` when a character is not a
/// digit or the value exceeds `cap`.
fn read_digits(s: &Vec<char>, from: usize, to: usize, cap: i64) -> (r: Option<i64>)
    requires
        from <= to <= s@.len(),
        0 <= cap < i64::MAX / 10 - 10,
    ensures
        r is Some <==> (all_digits(s@.subrange(from as int, to as int)) && digits_value(
            s@.subrange(from as int, to as int),
        ) <= cap),
        r is Some ==> r->0 == digits_value(s@.subrange(from as int, to as int)),
{
    let mut v: i64 = 0;
    let mut i: usize = from;
    while i < to
        invariant
            from <= i <= to <= s@.len(),
            0 <= cap < i64::MAX / 10 - 10,
            all_digits(s@.subrange(from as int, i as int)),
            v == digits_value(s@.subrange(from as int, i as int)),
            0 <= v <= cap,
        decreases to - i,
    {
        let c = s[i];
        let ghost pre = s@.subrange(from as int, i as int);
        let ghost next = s@.subrange(from as int, i + 1);
        assert(next.drop_last() =~= pre);
        if !('0' <= c && c <= '9') {
            proof {
                let whole = s@.subrange(from as int, to as int);
                assert(whole[i - from] == c);
            }
            return None;
        }
        let d = (c as u32 - '0' as u32) as i64;
        assert(all_digits(next));
        v = v * 10 + d;
        if v > cap {
            proof {
                let whole = s@.subrange(from as int, to as int);
                if all_digits(whole) {
                    lemma_digits_prefix_le(whole, i + 1 - from);
                    assert(whole.subrange(0, i + 1 - from) =~= next);
                }
            }
            return None;
        }
        i = i + 1;
    }
    Some(v)
}

/// Parses a decimal literal into millionths; `None` when it is not
/// well formed or its value does not fit in an `i64`.
#[verifier::rlimit(40)]
pub fn parse_decimal(s: &Vec<char>) -> (r: Option<i64>)
    ensures
        r is Some <==> (decimal_well_formed(s@) && fits_i64(decimal_micros(s@))),
        r is Some ==> r->0 == decimal_micros(s@),
{
    let neg = s.len() > 0 && s[0] == '-';
    let start: usize = if neg { 1 } else { 0 };
    let ghost b = unsigned_part(s@);
    assert(b =~= s@.subrange(start as int, s@.len() as int));
    let mut p: usize = start;
    while p < s.len() && s[p] != '.'
        invariant
            start <= p <= s@.len(),
            forall|k: int| start <= k < p ==> s@[k] != '.',
        decreases s.len() - p,
    {
        p = p + 1;
    }
    proof {
        lemma_dot_pos(b);
        let q = dot_pos(b);
        if q < p - start {
            assert(b[q] == s@[start + q]);
        }
        if p - start < q {
            assert(b[p - start] == s@[p as int]);
        }
        assert(dot_pos(b) == p - start);
        assert(b.subrange(0, p - start) =~= s@.subrange(start as int, p as int));
        if p < s@.len() {
            assert(b.subrange(p - start + 1, b.len() as int) =~= s@.subrange(
                p + 1,
                s@.len() as int,
            ));
        }
    }
    if p == start {
        return None;
    }
    let cap: i64 = 10000000000000;
    let ipv = match read_digits(s, start, p, cap) {
        Some(v) => v,
        None => {
            proof {
                let ip = s@.subrange(start as int, p as int);
                if all_digits(ip) {
                    assert(digits_value(ip) > cap);
                    assert(digits_value(ip) * 1000000 > i64::MAX);
                    if p < s.len() {
                        let fp = s@.subrange(p + 1, s@.len() as int);
                        if all_digits(fp) {
                            lemma_digits_nonneg(fp);
                            lemma_pow10_pos((6 - fp.len()) as nat);
                            assert(digits_value(fp) * pow10((6 - fp.len()) as nat) >= 0)
                                by (nonlinear_arith)
                                requires
                                    digits_value(fp) >= 0,
                                    pow10((6 - fp.len()) as nat) > 0,
                            ;
                        }
                    }
                }
            }
            return None;
        },
    };
    let mut fpv: i64 = 0;
    if p < s.len() {
        let flen = s.len() - p - 1;
        if flen < 1 || flen > 6 {
            return None;
        }
        match read_digits(s, p + 1, s.len(), 1000000) {
            Some(v) => {
                let mut scale: i64 = 1;
                let mut k: usize = flen;
                while k < 6
                    invariant
                        flen <= k <= 6,
                        scale == pow10((k - flen) as nat),
                        1 <= scale <= 1000000,
                    decreases 6 - k,
                {
                    proof {
                        lemma_pow10_bound((k - flen) as nat);
                        assert(pow10((k + 1 - flen) as nat) == 10 * pow10((k - flen) as nat));
                    }
                    scale = scale * 10;
                    k = k + 1;
                }
                proof {
                    let fp = s@.subrange(p + 1, s@.len() as int);
                    lemma_digits_lt_pow10(fp);
                    assert(v < pow10(flen as nat));
                    lemma_pow10_mul(flen as nat, (6 - flen) as nat);
                    lemma_pow10_bound(6);
                    assert(v * scale < 1000000) by (nonlinear_arith)
                        requires
                            v < pow10(flen as nat),
                            v >= 0,
                            scale == pow10((6 - flen) as nat),
                            pow10(flen as nat) * pow10((6 - flen) as nat) == 1000000,
                    ;
                }
                fpv = v * scale;
            },
            None => {
                proof {
                    let fp = s@.subrange(p + 1, s@.len() as int);
                    if all_digits(fp) {
                        lemma_digits_lt_pow10(fp);
                        lemma_pow10_bound(flen as nat);
                    }
                }
                return None;
            },
        }
    }
    let mag: i128 = ipv as i128 * 1000000 + fpv as i128;
    let v: i128 = if neg { -mag } else { mag };
    if v < i64::MIN as i128 || v > i64::MAX as i128 {
        return None;
    }
    Some(v as i64)
}

proof fn lemma_pow10_pos(n: nat)
    ensures
        pow10(n) > 0,
    decreases n,
{
    if n > 0 {
        lemma_pow10_pos((n - 1) as nat);
    }
}

proof fn lemma_pow10_bound(n: nat)
    requires
        n <= 6,
    ensures
        1 <= pow10(n) <= 1000000,
        n < 6 ==> pow10(n) <= 100000,
        pow10(6) == 1000000,
{
    reveal_with_fuel(pow10, 7);
}

proof fn lemma_pow10_mul(a: nat, b: nat)
    ensures
        pow10(a) * pow10(b) == pow10(a + b),
    decreases a,
{
    if a > 0 {
        lemma_pow10_mul((a - 1) as nat, b);
        assert(pow10(a) * pow10(b) == 10 * (pow10((a - 1) as nat) * pow10(b)))
            by (nonlinear_arith)
            requires
                pow10(a) == 10 * pow10((a - 1) as nat),
        ;
    }
}

proof fn lemma_digits_lt_pow10(s: Seq<char>)
    requires
        all_digits(s),
    ensures
        0 <= digits_value(s) < pow10(s.len()),
    decreases s.len(),
{
    if s.len() > 0 {
        let d = s.drop_last();
        assert(all_digits(d));
        lemma_digits_lt_pow10(d);
        assert(is_digit(s[s.len() - 1]));
        assert(pow10(s.len()) == 10 * pow10(d.len()));
        assert(digits_value(d) * 10 + digit_val(s.last()) < 10 * pow10(d.len()))
            by (nonlinear_arith)
            requires
                digits_value(d) < pow10(d.len()),
                0 <= digit_val(s.last()) < 10,
        ;
    }
}

/// The value of the digits `s[i..i + n]`.
pub open spec fn field(s: Seq<char>, i: int, n: int) -> int {
    digits_value(s.subrange(i, i + n))
}

pub open spec fn field_ok(s: Seq<char>, i: int, n: int) -> bool {
    all_digits(s.subrange(i, i + n))
}

pub open spec fn is_leap(y: int) -> bool {
    (y % 4 == 0 && y % 100 != 0) || y % 400 == 0
}

pub open spec fn days_in_month(y: int, m: int) -> int {
    if m == 2 {
        if is_leap(y) {
            29
        } else {
            28
        }
    } else if m == 4 || m == 6 || m == 9 || m == 11 {
        30
    } else {
        31
    }
}

/// Days from 1970-01-01 to the given civil date (proleptic Gregorian).
pub open spec fn days_from_civil(y: int, m: int, d: int) -> int {
    let yy = if m <= 2 {
        y - 1
    } else {
        y
    };
    let era = yy / 400;
    let yoe = yy - era * 400;
    let mp = if m > 2 {
        m - 3
    } else {
        m + 9
    };
    let doy = (153 * mp + 2) / 5 + d - 1;
    let doe = yoe * 365 + yoe / 4 - yoe / 100 + doy;
    era * 146097 + doe - 719468
}

/// `s` begins with a valid date written `YYYY-MM-DD`, year at least 1.
pub open spec fn date_prefix_ok(s: Seq<char>) -> bool {
    &&& s.len() >= 10
    &&& field_ok(s, 0, 4) && field_ok(s, 5, 2) && field_ok(s, 8, 2)
    &&& s[4] == '-' && s[7] == '-'
    &&& 1 <= field(s, 0, 4)
    &&& 1 <= field(s, 5, 2) <= 12
    &&& 1 <= field(s, 8, 2) <= days_in_month(field(s, 0, 4), field(s, 5, 2))
}

pub open spec fn date_prefix_days(s: Seq<char>) -> int {
    days_from_civil(field(s, 0, 4), field(s, 5, 2), field(s, 8, 2))
}

/// A date literal: exactly `YYYY-MM-DD`.
pub open spec fn date_literal_ok(s: Seq<char>) -> bool {
    s.len() == 10 && date_prefix_ok(s)
}

/// A time of day written ` HH:MM:SS` after the date.
pub open spec fn time_suffix_ok(s: Seq<char>) -> bool {
    &&& s.len() == 19
    &&& s[10] == ' ' && s[13] == ':' && s[16] == ':'
    &&& field_ok(s, 11, 2) && field_ok(s, 14, 2) && field_ok(s, 17, 2)
    &&& field(s, 11, 2) < 24 && field(s, 14, 2) < 60 && field(s, 17, 2) < 60
}

/// A date-time literal: a date, optionally followed by a time of day.
pub open spec fn datetime_literal_ok(s: Seq<char>) -> bool {
    date_prefix_ok(s) && (s.len() == 10 || time_suffix_ok(s))
}

pub open spec fn datetime_literal_seconds(s: Seq<char>) -> int {
    date_prefix_days(s) * 86400 + if s.len() == 19 {
        field(s, 11, 2) * 3600 + field(s, 14, 2) * 60 + field(s, 17, 2)
    } else {
        0
    }
}

fn read_field(s: &Vec<char>, from: usize, n: usize) -> (r: Option<i64>)
    requires
        from + n <= s@.len(),
        n <= 4,
    ensures
        r is Some <==> field_ok(s@, from as int, n as int),
        r is Some ==> r->0 == field(s@, from as int, n as int) && 0 <= r->0 < 10000,
{
    assert(from + n <= s.len());
    let r = read_digits(s, from, from + n, 10000);
    proof {
        let f = s@.subrange(from as int, from + n);
        if field_ok(s@, from as int, n as int) {
            lemma_digits_lt_pow10(f);
            reveal_with_fuel(pow10, 5);
        }
    }
    r
}

/// The civil date `YYYY-MM-DD` at the start of `s`, as days since the epoch.
#[verifier::rlimit(40)]
fn parse_date_prefix(s: &Vec<char>) -> (r: Option<i64>)
    ensures
        r is Some <==> date_prefix_ok(s@),
        r is Some ==> r->0 == date_prefix_days(s@) && -800000 < r->0 < 3000000,
{
    if s.len() < 10 || s[4] != '-' || s[7] != '-' {
        return None;
    }
    let y = match read_field(s, 0, 4) {
        Some(v) => v,
        None => return None,
    };
    let m = match read_field(s, 5, 2) {
        Some(v) => v,
        None => return None,
    };
    let d = match read_field(s, 8, 2) {
        Some(v) => v,
        None => return None,
    };
    if y < 1 || m < 1 || m > 12 || d < 1 {
        return None;
    }
    let leap = (y % 4 == 0 && y % 100 != 0) || y % 400 == 0;
    let dim: i64 = if m == 2 {
        if leap { 29 } else { 28 }
    } else if m == 4 || m == 6 || m == 9 || m == 11 {
        30
    } else {
        31
    };
    if d > dim {
        return None;
    }
    let yy: i64 = if m <= 2 { y - 1 } else { y };
    let era: i64 = yy / 400;
    let yoe: i64 = yy - era * 400;
    let mp: i64 = if m > 2 { m - 3 } else { m + 9 };
    let doy: i64 = (153 * mp + 2) / 5 + d - 1;
    let doe: i64 = yoe * 365 + yoe / 4 - yoe / 100 + doy;
    Some(era * 146097 + doe - 719468)
}

/// Parses a date literal `YYYY-MM-DD` into days since 1970-01-01.
pub fn parse_date(s: &Vec<char>) -> (r: Option<i64>)
    ensures
        r is Some <==> date_literal_ok(s@),
        r is Some ==> r->0 == date_prefix_days(s@),
{
    if s.len() != 10 {
        return None;
    }
    parse_date_prefix(s)
}

/// Parses `YYYY-MM-DD` or `YYYY-MM-DD HH:MM:SS` into seconds since
/// 1970-01-01 00:00:00.
pub fn parse_datetime(s: &Vec<char>) -> (r: Option<i64>)
    ensures
        r is Some <==> datetime_literal_ok(s@),
        r is Some ==> r->0 == datetime_literal_seconds(s@),
{
    if s.len() != 10 && s.len() != 19 {
        return None;
    }
    let days = match parse_date_prefix(s) {
        Some(v) => v,
        None => return None,
    };
    if s.len() == 10 {
        return Some(days * 86400);
    }
    if s[10] != ' ' || s[13] != ':' || s[16] != ':' {
        return None;
    }
    let h = match read_field(s, 11, 2) {
        Some(v) => v,
        None => return None,
    };
    let mi = match read_field(s, 14, 2) {
        Some(v) => v,
        None => return None,
    };
    let sec = match read_field(s, 17, 2) {
        Some(v) => v,
        None => return None,
    };
    if h >= 24 || mi >= 60 || sec >= 60 {
        return None;
    }
    Some(days * 86400 + h * 3600 + mi * 60 + sec)
}

/// A boolean literal: `true`, `TRUE`, `True`, `false`, `FALSE` or `False`.
pub open spec fn bool_literal(s: Seq<char>) -> Option<bool> {
    if s == seq!['t', 'r', 'u', 'e'] || s == seq!['T', 'R', 'U', 'E'] || s == seq![
        'T',
        'r',
        'u',
        'e',
    ] {
        Some(true)
    } else if s == seq!['f', 'a', 'l', 's', 'e'] || s == seq!['F', 'A', 'L', 'S', 'E'] || s
        == seq!['F', 'a', 'l', 's', 'e'] {
        Some(false)
    } else {
        None
    }
}

fn eq_word(s: &Vec<char>, w: &[char]) -> (r: bool)
    ensures
        r == (s@ == w@),
{
    if s.len() != w.len() {
        return false;
    }
    let mut i: usize = 0;
    while i < s.len()
        invariant
            s@.len() == w@.len(),
            0 <= i <= s@.len(),
            forall|k: int| 0 <= k < i ==> s@[k] == w@[k],
        decreases s.len() - i,
    {
        if s[i] != w[i] {
            return false;
        }
        i = i + 1;
    }
    assert(s@ =~= w@);
    true
}

pub fn parse_bool(s: &Vec<char>) -> (r: Option<bool>)
    ensures
        r == bool_literal(s@),
{
    let t1 = ['t', 'r', 'u', 'e'];
    let t2 = ['T', 'R', 'U', 'E'];
    let t3 = ['T', 'r', 'u', 'e'];
    let f1 = ['f', 'a', 'l', 's', 'e'];
    let f2 = ['F', 'A', 'L', 'S', 'E'];
    let f3 = ['F', 'a', 'l', 's', 'e'];
    assert(t1@ =~= seq!['t', 'r', 'u', 'e']);
    assert(t2@ =~= seq!['T', 'R', 'U', 'E']);
    assert(t3@ =~= seq!['T', 'r', 'u', 'e']);
    assert(f1@ =~= seq!['f', 'a', 'l', 's', 'e']);
    assert(f2@ =~= seq!['F', 'A', 'L', 'S', 'E']);
    assert(f3@ =~= seq!['F', 'a', 'l', 's', 'e']);
    if eq_word(s, &t1) || eq_word(s, &t2) || eq_word(s, &t3) {
        Some(true)
    } else if eq_word(s, &f1) || eq_word(s, &f2) || eq_word(s, &f3) {
        Some(false)
    } else {
        None
    }
}

} // verus!
