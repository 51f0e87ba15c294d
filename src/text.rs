//! Operations on text as sequences of characters: search, comparison and
//! the parsing of literals.
use vstd::prelude::*;
use vstd::string::StrSliceExecFns;
use vstd::string::StringExecFns;

verus! {

/// The characters of `s`, in order.
pub fn chars_of(s: &str) -> (r: Vec<char>)
    ensures
        r@ == s@,
{
    let n = s.unicode_len();
    let mut out: Vec<char> = Vec::new();
    let mut i: usize = 0;
    while i < n
        invariant
            n == s@.len(),
            0 <= i <= n,
            out@ == s@.subrange(0, i as int),
        decreases n - i,
    {
        out.push(s.get_char(i));
        i = i + 1;
    }
    assert(out@ == s@);
    out
}

/// Relies on `String::from_iter`: the string of the given characters, in
/// order.
#[verifier::external_body]
pub(crate) fn string_of(cs: &Vec<char>) -> (r: String)
    ensures
        r@ == cs@,
{
    String::from_iter(cs.iter())
}

/// `needle` occurs in `hay` starting at position `i`.
pub open spec fn occurs_at(hay: Seq<char>, needle: Seq<char>, i: int) -> bool {
    0 <= i && i + needle.len() <= hay.len() && hay.subrange(i, i + needle.len()) == needle
}

pub open spec fn contains_spec(hay: Seq<char>, needle: Seq<char>) -> bool {
    exists|i: int| occurs_at(hay, needle, i)
}

pub open spec fn starts_with_spec(hay: Seq<char>, needle: Seq<char>) -> bool {
    occurs_at(hay, needle, 0)
}

pub open spec fn ends_with_spec(hay: Seq<char>, needle: Seq<char>) -> bool {
    occurs_at(hay, needle, hay.len() - needle.len())
}

/// Whether `needle` occurs in `hay` at position `i`.
pub fn matches_at(hay: &Vec<char>, needle: &Vec<char>, i: usize) -> (r: bool)
    ensures
        r == occurs_at(hay@, needle@, i as int),
{
    if i > hay.len() || needle.len() > hay.len() - i {
        return false;
    }
    let mut j: usize = 0;
    while j < needle.len()
        invariant
            i + needle@.len() <= hay@.len(),
            0 <= j <= needle@.len(),
            forall|k: int| 0 <= k < j ==> hay@[i + k] == needle@[k],
        decreases needle.len() - j,
    {
        assert(i + j < hay.len());
        if hay[i + j] != needle[j] {
            assert(hay@.subrange(i as int, i + needle@.len())[j as int] != needle@[j as int]);
            return false;
        }
        j = j + 1;
    }
    assert(hay@.subrange(i as int, i + needle@.len()) =~= needle@);
    true
}

pub fn contains_chars(hay: &Vec<char>, needle: &Vec<char>) -> (r: bool)
    ensures
        r == contains_spec(hay@, needle@),
{
    if needle.len() > hay.len() {
        return false;
    }
    let last = hay.len() - needle.len();
    let mut i: usize = 0;
    loop
        invariant
            last == hay@.len() - needle@.len(),
            0 <= i <= last,
            forall|k: int| 0 <= k < i ==> !occurs_at(hay@, needle@, k),
        decreases last - i,
    {
        if matches_at(hay, needle, i) {
            return true;
        }
        if i == last {
            assert forall|k: int| !occurs_at(hay@, needle@, k) by {
                if occurs_at(hay@, needle@, k) {
                    assert(k <= last);
                }
            }
            return false;
        }
        i = i + 1;
    }
}

pub fn starts_with_chars(hay: &Vec<char>, needle: &Vec<char>) -> (r: bool)
    ensures
        r == starts_with_spec(hay@, needle@),
{
    matches_at(hay, needle, 0)
}

pub fn ends_with_chars(hay: &Vec<char>, needle: &Vec<char>) -> (r: bool)
    ensures
        r == ends_with_spec(hay@, needle@),
{
    if needle.len() > hay.len() {
        return false;
    }
    matches_at(hay, needle, hay.len() - needle.len())
}

/// Three-way lexicographic comparison by code point: negative, zero or
/// positive as `a` sorts before, with or after `b`.
pub open spec fn text_cmp(a: Seq<char>, b: Seq<char>) -> int
    decreases a.len(),
{
    if a.len() == 0 && b.len() == 0 {
        0
    } else if a.len() == 0 {
        -1
    } else if b.len() == 0 {
        1
    } else if a[0] < b[0] {
        -1
    } else if a[0] > b[0] {
        1
    } else {
        text_cmp(a.drop_first(), b.drop_first())
    }
}

pub fn compare_chars(a: &Vec<char>, b: &Vec<char>) -> (r: i8)
    ensures
        r as int == text_cmp(a@, b@),
{
    let mut i: usize = 0;
    assert(a@.skip(0) =~= a@);
    assert(b@.skip(0) =~= b@);
    while i < a.len() && i < b.len()
        invariant
            0 <= i <= a@.len(),
            i <= b@.len(),
            a@.subrange(0, i as int) == b@.subrange(0, i as int),
            text_cmp(a@, b@) == text_cmp(a@.skip(i as int), b@.skip(i as int)),
        decreases a.len() - i,
    {
        let x = a[i];
        let y = b[i];
        assert(a@.skip(i as int)[0] == a@[i as int]);
        assert(b@.skip(i as int)[0] == b@[i as int]);
        if x < y {
            return -1;
        }
        if x > y {
            return 1;
        }
        assert(a@.skip(i as int).drop_first() =~= a@.skip(i + 1));
        assert(b@.skip(i as int).drop_first() =~= b@.skip(i + 1));
        assert(a@.subrange(0, i + 1) =~= a@.subrange(0, i as int).push(a@[i as int]));
        assert(b@.subrange(0, i + 1) =~= b@.subrange(0, i as int).push(b@[i as int]));
        assert(a@[i as int] == b@[i as int]);
        i = i + 1;
    }
    if a.len() == i && b.len() == i {
        0
    } else if a.len() == i {
        -1
    } else {
        1
    }
}

/// What `str::to_lowercase` makes of a text.
pub uninterp spec fn lower_of(s: Seq<char>) -> Seq<char>;

/// Relies on `str::to_lowercase`: the lowercase form of `s`, which depends
/// on its characters alone.
#[verifier::external_body]
fn to_lower(s: &str) -> (r: String)
    ensures
        r@ == lower_of(s@),
{
    s.to_lowercase()
}

/// The characters of the lowercase form of `s`.
pub fn lower_chars(s: &str) -> (r: Vec<char>)
    ensures
        r@ == lower_of(s@),
{
    let l = to_lower(s);
    chars_of(l.as_str())
}

#[verifier::external_type_specification]
#[verifier::external_body]
pub struct ExRegex(regex::Regex);

#[verifier::external_type_specification]
#[verifier::external_body]
pub struct ExRegexError(regex::Error);

/// Whether `regex::Regex::new` accepts a pattern.
pub uninterp spec fn regex_compiles(pattern: Seq<char>) -> bool;

/// Whether the regex compiled from a pattern matches somewhere in a text.
pub uninterp spec fn regex_finds(pattern: Seq<char>, hay: Seq<char>) -> bool;

/// Relies on `regex::Regex::new`: compiles a pattern with the default
/// configuration; whether that succeeds depends on the pattern alone.
#[verifier::external_body]
fn regex_new(pattern: &str) -> (r: Result<regex::Regex, regex::Error>)
    ensures
        r is Ok <==> regex_compiles(pattern@),
{
    regex::Regex::new(pattern)
}

/// A compiled regular expression, with the pattern it was compiled from.
pub struct Pattern {
    re: regex::Regex,
    source: Ghost<Seq<char>>,
}

impl Pattern {
    pub closed spec fn source(&self) -> Seq<char> {
        self.source@
    }
}

/// The pattern prefix that makes a regex ignore case.
pub open spec fn case_insensitive_flag() -> Seq<char> {
    seq!['(', '?', 'i', ')']
}

/// The pattern that a search compiles: the term itself, behind the
/// case-insensitivity flag when case is ignored.
pub open spec fn search_pattern(term: Seq<char>, case_sensitive: bool) -> Seq<char> {
    if case_sensitive {
        term
    } else {
        case_insensitive_flag() + term
    }
}

/// Compiles the pattern of a regex search; `None` when the regex crate
/// refuses it.
pub fn compile_pattern(term: &str, case_sensitive: bool) -> (r: Option<Pattern>)
    ensures
        r is Some <==> regex_compiles(search_pattern(term@, case_sensitive)),
        r is Some ==> r->0.source() == search_pattern(term@, case_sensitive),
{
    let mut p = String::from_str("(?i)");
    proof {
        reveal_strlit("(?i)");
    }
    if case_sensitive {
        p = String::from_str(term);
    } else {
        p.append(term);
        assert(p@ =~= case_insensitive_flag() + term@);
    }
    match regex_new(p.as_str()) {
        Ok(re) => Some(Pattern { re, source: Ghost(p@) }),
        Err(_) => None,
    }
}

/// Relies on `regex::Regex::is_match`: whether the regex matches anywhere
/// in `hay`. A `Pattern` is only built by `compile_pattern`, from its source.
#[verifier::external_body]
pub(crate) fn regex_is_match(p: &Pattern, hay: &str) -> (r: bool)
    ensures
        r == regex_finds(p.source(), hay@),
{
    p.re.is_match(hay)
}

} // verus!
