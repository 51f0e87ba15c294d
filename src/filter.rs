//! The filter engine: row filters, their validity against the current
//! table, and the selection mask they combine into.
use vstd::prelude::*;
use vstd::string::StrSliceExecFns;
use crate::literal::{
    bool_literal, date_literal_ok, date_prefix_days, datetime_literal_ok,
    datetime_literal_seconds, decimal_micros, decimal_well_formed, fits_i64, parse_bool,
    parse_date, parse_datetime, parse_decimal,
};
use crate::schema::ColumnSchema;
use crate::table::{CellValue, Column, ColumnKind, DataTable};
use crate::text::{
    chars_of, compare_chars, contains_chars, contains_spec, ends_with_chars, ends_with_spec,
    lower_chars, lower_of, regex_compiles, regex_finds, search_pattern, starts_with_chars,
    starts_with_spec, text_cmp, Pattern,
};

verus! {

/// How a filter's mask joins the running mask of the filters before it.
#[derive(Clone, Copy, Debug, PartialEq, Eq, Structural)]
pub enum FilterCondition {
    And,
    Or,
}

#[derive(Clone, Copy, Debug, PartialEq, Eq, Structural)]
pub enum CompareOp {
    Lt,
    Lte,
    Gt,
    Gte,
    Eq,
    Neq,
}

#[derive(Clone, Copy, Debug, PartialEq, Eq, Structural)]
pub enum TextSearchType {
    Contains,
    StartsWith,
    EndsWith,
    RegexMatch,
}

/// The predicate of a filter, with its parameters.
#[derive(Clone, Debug)]
pub enum FilterKind {
    Compare { op: CompareOp, value: String },
    NotNull,
    IsNull,
    IsEmpty,
    IsTrue,
    IsFalse,
    Search { search_type: TextSearchType, term: String, case_sensitive: bool },
    SetMembership { values: Vec<String>, inclusive: bool },
}

/// A row filter as the client declared it, with the validity that the
/// last evaluation found.
#[derive(Clone, Debug)]
pub struct RowFilter {
    pub filter_id: String,
    pub column_schema: ColumnSchema,
    pub kind: FilterKind,
    pub condition: FilterCondition,
    pub is_valid: Option<bool>,
    pub error_message: Option<String>,
}

/// Why a filter cannot be applied to the current table.
#[derive(Clone, Copy, Debug, PartialEq, Eq, Structural)]
pub enum FilterIssue {
    /// No column of the table has the filter's column name.
    ColumnMissing,
    /// The filter does not apply to the column's type.
    UnsupportedType,
    /// A literal does not parse as a value of the column's type.
    BadLiteral,
    /// The search pattern is not a valid regular expression.
    BadPattern,
}

/// A literal coerced to a column's type.
pub enum LitV {
    Num(int),
    Text(Seq<char>),
    Bool(bool),
    Time(int),
}

/// The literal `s` read as a value of kind `k`.
pub open spec fn coerce(k: ColumnKind, s: Seq<char>) -> Option<LitV> {
    match k {
        ColumnKind::Number | ColumnKind::Integer => if decimal_well_formed(s) && fits_i64(
            decimal_micros(s),
        ) {
            Some(LitV::Num(decimal_micros(s)))
        } else {
            None
        },
        ColumnKind::Text => Some(LitV::Text(s)),
        ColumnKind::Boolean => match bool_literal(s) {
            Some(b) => Some(LitV::Bool(b)),
            None => None,
        },
        ColumnKind::Date => if date_literal_ok(s) {
            Some(LitV::Time(date_prefix_days(s)))
        } else {
            None
        },
        ColumnKind::Datetime => if datetime_literal_ok(s) {
            Some(LitV::Time(datetime_literal_seconds(s)))
        } else {
            None
        },
    }
}

pub open spec fn sign(d: int) -> int {
    if d < 0 {
        -1
    } else if d > 0 {
        1
    } else {
        0
    }
}

pub open spec fn bool_int(b: bool) -> int {
    if b {
        1
    } else {
        0
    }
}

/// How a cell compares with a literal (negative, zero, positive), or
/// `None` when the cell holds no value of the literal's type.
pub open spec fn cell_vs(c: CellValue, l: LitV) -> Option<int> {
    match (c, l) {
        (CellValue::Number(v), LitV::Num(x)) => Some(sign(v - x)),
        (CellValue::Text(t), LitV::Text(x)) => Some(text_cmp(t@, x)),
        (CellValue::Boolean(b), LitV::Bool(x)) => Some(bool_int(b) - bool_int(x)),
        (CellValue::Temporal(v), LitV::Time(x)) => Some(sign(v - x)),
        _ => None,
    }
}

pub open spec fn op_holds(op: CompareOp, c: int) -> bool {
    match op {
        CompareOp::Lt => c < 0,
        CompareOp::Lte => c <= 0,
        CompareOp::Gt => c > 0,
        CompareOp::Gte => c >= 0,
        CompareOp::Eq => c == 0,
        CompareOp::Neq => c != 0,
    }
}

/// Column `i` is the first column named `name`.
pub open spec fn first_named(cols: Seq<Column>, name: Seq<char>, i: int) -> bool {
    &&& 0 <= i < cols.len()
    &&& cols[i].name@ == name
    &&& forall|k: int| 0 <= k < i ==> #[trigger] cols[k].name@ != name
}

/// The column a filter applies to: the first one with its column's name.
pub open spec fn resolve(t: DataTable, f: RowFilter) -> Option<int> {
    if exists|i: int| first_named(t.columns@, f.column_schema.column_name@, i) {
        Some(choose|i: int| first_named(t.columns@, f.column_schema.column_name@, i))
    } else {
        None
    }
}

pub open spec fn all_coerce(k: ColumnKind, values: Seq<String>) -> bool {
    forall|j: int| 0 <= j < values.len() ==> (#[trigger] coerce(k, values[j]@)) is Some
}

/// What is wrong with applying filter kind `fk` to a column of kind `k`.
pub open spec fn kind_issue(fk: FilterKind, k: ColumnKind) -> Option<FilterIssue> {
    match fk {
        FilterKind::Compare { op, value } => if coerce(k, value@) is Some {
            None
        } else {
            Some(FilterIssue::BadLiteral)
        },
        FilterKind::NotNull | FilterKind::IsNull => None,
        FilterKind::IsEmpty => if k == ColumnKind::Text {
            None
        } else {
            Some(FilterIssue::UnsupportedType)
        },
        FilterKind::IsTrue | FilterKind::IsFalse => if k == ColumnKind::Boolean {
            None
        } else {
            Some(FilterIssue::UnsupportedType)
        },
        FilterKind::Search { search_type, term, case_sensitive } => if k != ColumnKind::Text {
            Some(FilterIssue::UnsupportedType)
        } else if search_type == TextSearchType::RegexMatch && !regex_compiles(
            search_pattern(term@, case_sensitive),
        ) {
            Some(FilterIssue::BadPattern)
        } else {
            None
        },
        FilterKind::SetMembership { values, inclusive } => if all_coerce(k, values@) {
            None
        } else {
            Some(FilterIssue::BadLiteral)
        },
    }
}

/// What is wrong with filter `f` on table `t`, if anything.
pub open spec fn filter_issue(t: DataTable, f: RowFilter) -> Option<FilterIssue> {
    match resolve(t, f) {
        None => Some(FilterIssue::ColumnMissing),
        Some(c) => kind_issue(f.kind, t.columns@[c].kind),
    }
}

pub open spec fn search_holds(
    st: TextSearchType,
    term: Seq<char>,
    case_sensitive: bool,
    x: Seq<char>,
) -> bool {
    let h = if case_sensitive {
        x
    } else {
        lower_of(x)
    };
    let n = if case_sensitive {
        term
    } else {
        lower_of(term)
    };
    match st {
        TextSearchType::Contains => contains_spec(h, n),
        TextSearchType::StartsWith => starts_with_spec(h, n),
        TextSearchType::EndsWith => ends_with_spec(h, n),
        TextSearchType::RegexMatch => regex_finds(search_pattern(term, case_sensitive), x),
    }
}

/// A cell equals one of the literals.
pub open spec fn is_member(c: CellValue, k: ColumnKind, values: Seq<String>) -> bool {
    exists|j: int|
        0 <= j < values.len() && cell_vs(c, coerce(k, #[trigger] values[j]@)->0) == Some(0int)
}

/// The cell holds a value of the column's own type.
pub open spec fn has_value(c: CellValue, k: ColumnKind) -> bool {
    match c {
        CellValue::Number(_) => k == ColumnKind::Number || k == ColumnKind::Integer,
        CellValue::Text(_) => k == ColumnKind::Text,
        CellValue::Boolean(_) => k == ColumnKind::Boolean,
        CellValue::Temporal(_) => k == ColumnKind::Date || k == ColumnKind::Datetime,
        _ => false,
    }
}

/// Whether a valid filter kind keeps a cell of a column of kind `k`.
pub open spec fn kind_keeps(fk: FilterKind, k: ColumnKind, c: CellValue) -> bool {
    match fk {
        FilterKind::Compare { op, value } => match cell_vs(c, coerce(k, value@)->0) {
            Some(d) => op_holds(op, d),
            None => false,
        },
        FilterKind::NotNull => !(c is Missing),
        FilterKind::IsNull => c is Missing,
        FilterKind::IsEmpty => c matches CellValue::Text(x) && x@.len() == 0,
        FilterKind::IsTrue => c == CellValue::Boolean(true),
        FilterKind::IsFalse => c == CellValue::Boolean(false),
        FilterKind::Search { search_type, term, case_sensitive } => match c {
            CellValue::Text(x) => search_holds(search_type, term@, case_sensitive, x@),
            _ => false,
        },
        FilterKind::SetMembership { values, inclusive } => has_value(c, k) && (if inclusive {
            is_member(c, k, values@)
        } else {
            !is_member(c, k, values@)
        }),
    }
}

/// Whether filter `f` keeps `row`. An invalid filter keeps every row: it
/// fails open rather than excluding.
pub open spec fn filter_keeps(t: DataTable, f: RowFilter, row: int) -> bool {
    match filter_issue(t, f) {
        Some(_) => true,
        None => kind_keeps(f.kind, t.columns@[resolve(t, f)->0].kind, t.cell(resolve(t, f)->0, row)),
    }
}

/// The running mask after the first `k` filters. The first filter's own
/// condition is ignored; each later one joins by its own condition.
pub open spec fn mask_upto(t: DataTable, fs: Seq<RowFilter>, k: int, row: int) -> bool
    decreases k,
{
    if k <= 0 {
        true
    } else if k == 1 {
        filter_keeps(t, fs[0], row)
    } else {
        match fs[k - 1].condition {
            FilterCondition::And => mask_upto(t, fs, k - 1, row) && filter_keeps(t, fs[k - 1], row),
            FilterCondition::Or => mask_upto(t, fs, k - 1, row) || filter_keeps(t, fs[k - 1], row),
        }
    }
}

/// Whether `row` is selected by the whole filter list.
pub open spec fn selected(t: DataTable, fs: Seq<RowFilter>, row: int) -> bool {
    mask_upto(t, fs, fs.len() as int, row)
}

/// The selected rows, in source order.
pub open spec fn selected_rows(t: DataTable, fs: Seq<RowFilter>) -> Seq<usize>
    decreases t.num_rows,
{
    selected_below(t, fs, t.num_rows as int)
}

/// The selected rows below `n`, in source order.
pub open spec fn selected_below(t: DataTable, fs: Seq<RowFilter>, n: int) -> Seq<usize>
    decreases n,
{
    if n <= 0 {
        Seq::empty()
    } else if selected(t, fs, n - 1) {
        selected_below(t, fs, n - 1).push((n - 1) as usize)
    } else {
        selected_below(t, fs, n - 1)
    }
}

/// A literal coerced to a column's type, ready for comparison.
#[derive(Clone, Debug)]
pub enum Literal {
    Num(i64),
    Text(Vec<char>),
    Bool(bool),
    Time(i64),
}

impl Literal {
    pub open spec fn lit(&self) -> LitV {
        match *self {
            Literal::Num(v) => LitV::Num(v as int),
            Literal::Text(t) => LitV::Text(t@),
            Literal::Bool(b) => LitV::Bool(b),
            Literal::Time(v) => LitV::Time(v as int),
        }
    }
}

/// Reads the literal `s` as a value of kind `k`.
pub fn coerce_literal(k: ColumnKind, s: &String) -> (r: Option<Literal>)
    ensures
        r is Some <==> coerce(k, s@) is Some,
        r is Some ==> r->0.lit() == coerce(k, s@)->0,
{
    let cs = chars_of(s.as_str());
    match k {
        ColumnKind::Number | ColumnKind::Integer => match parse_decimal(&cs) {
            Some(v) => Some(Literal::Num(v)),
            None => None,
        },
        ColumnKind::Text => Some(Literal::Text(cs)),
        ColumnKind::Boolean => match parse_bool(&cs) {
            Some(b) => Some(Literal::Bool(b)),
            None => None,
        },
        ColumnKind::Date => match parse_date(&cs) {
            Some(v) => Some(Literal::Time(v)),
            None => None,
        },
        ColumnKind::Datetime => match parse_datetime(&cs) {
            Some(v) => Some(Literal::Time(v)),
            None => None,
        },
    }
}

fn sign_of(a: i64, b: i64) -> (r: i8)
    ensures
        r as int == sign(a - b),
{
    if a < b {
        -1
    } else if a > b {
        1
    } else {
        0
    }
}

/// Compares a cell with a literal.
pub fn cell_vs_literal(c: &CellValue, l: &Literal) -> (r: Option<i8>)
    ensures
        r is Some <==> cell_vs(*c, l.lit()) is Some,
        r is Some ==> r->0 as int == cell_vs(*c, l.lit())->0,
{
    match (c, l) {
        (CellValue::Number(v), Literal::Num(x)) => Some(sign_of(*v, *x)),
        (CellValue::Text(t), Literal::Text(x)) => {
            let tc = chars_of(t.as_str());
            Some(compare_chars(&tc, x))
        },
        (CellValue::Boolean(b), Literal::Bool(x)) => {
            let bi: i8 = if *b { 1 } else { 0 };
            let xi: i8 = if *x { 1 } else { 0 };
            Some(bi - xi)
        },
        (CellValue::Temporal(v), Literal::Time(x)) => Some(sign_of(*v, *x)),
        _ => None,
    }
}

/// The first column named `name`, if any.
pub fn find_column(t: &DataTable, name: &String) -> (r: Option<usize>)
    ensures
        r is Some ==> first_named(t.columns@, name@, r->0 as int),
        r is None ==> forall|i: int| !first_named(t.columns@, name@, i),
{
    let mut i: usize = 0;
    while i < t.columns.len()
        invariant
            0 <= i <= t.columns@.len(),
            forall|k: int| 0 <= k < i ==> #[trigger] t.columns@[k].name@ != name@,
        decreases t.columns.len() - i,
    {
        if t.columns[i].name == *name {
            return Some(i);
        }
        i = i + 1;
    }
    None
}

proof fn lemma_first_named_unique(cols: Seq<Column>, name: Seq<char>, i: int, j: int)
    requires
        first_named(cols, name, i),
        first_named(cols, name, j),
    ensures
        i == j,
{
    if i < j {
        assert(cols[i].name@ != name);
    }
    if j < i {
        assert(cols[j].name@ != name);
    }
}

/// The per-row test of a valid filter, with its literals already coerced.
pub enum Pred {
    Cmp { op: CompareOp, lit: Literal },
    Null { want_missing: bool },
    Empty,
    Truth { want: bool },
    Search { search_type: TextSearchType, needle: Vec<char>, case_sensitive: bool, pattern: Option<Pattern> },
    Member { lits: Vec<Literal>, inclusive: bool },
}

/// A filter prepared against one table.
pub enum Prepared {
    PassAll,
    Check { col: usize, pred: Pred },
}

/// `pred` carries what filter kind `fk` needs on a column of kind `k`.
pub open spec fn pred_for(fk: FilterKind, k: ColumnKind, pred: Pred) -> bool {
    match (fk, pred) {
        (FilterKind::Compare { op, value }, Pred::Cmp { op: op2, lit }) => op == op2 && lit.lit()
            == coerce(k, value@)->0,
        (FilterKind::NotNull, Pred::Null { want_missing }) => !want_missing,
        (FilterKind::IsNull, Pred::Null { want_missing }) => want_missing,
        (FilterKind::IsEmpty, Pred::Empty) => true,
        (FilterKind::IsTrue, Pred::Truth { want }) => want,
        (FilterKind::IsFalse, Pred::Truth { want }) => !want,
        (
            FilterKind::Search { search_type, term, case_sensitive },
            Pred::Search { search_type: st2, needle, case_sensitive: cs2, pattern },
        ) => {
            &&& st2 == search_type
            &&& cs2 == case_sensitive
            &&& needle@ == (if case_sensitive {
                term@
            } else {
                lower_of(term@)
            })
            &&& search_type == TextSearchType::RegexMatch ==> pattern is Some
                && pattern->0.source() == search_pattern(term@, case_sensitive)
        },
        (
            FilterKind::SetMembership { values, inclusive },
            Pred::Member { lits, inclusive: inc2 },
        ) => {
            &&& inc2 == inclusive
            &&& lits@.len() == values@.len()
            &&& forall|j: int|
                0 <= j < lits@.len() ==> (#[trigger] lits@[j]).lit() == coerce(k, values@[j]@)->0
        },
        _ => false,
    }
}

/// `p` is filter `f` prepared against table `t`.
pub open spec fn prepared_for(t: DataTable, f: RowFilter, p: Prepared) -> bool {
    match p {
        Prepared::PassAll => filter_issue(t, f) is Some,
        Prepared::Check { col, pred } => {
            &&& filter_issue(t, f) is None
            &&& resolve(t, f) == Some(col as int)
            &&& pred_for(f.kind, t.columns@[col as int].kind, pred)
        },
    }
}

/// Prepares a filter against a table: resolves its column, checks that it
/// applies, and coerces its literals. Returns the issue when it does not
/// apply.
#[verifier::loop_isolation(false)]
#[verifier::rlimit(40)]
pub fn prepare_filter(t: &DataTable, f: &RowFilter) -> (r: (Prepared, Option<FilterIssue>))
    ensures
        prepared_for(*t, *f, r.0),
        r.1 == filter_issue(*t, *f),
{
    let col = match find_column(t, &f.column_schema.column_name) {
        Some(c) => c,
        None => {
            proof {
                if exists|i: int| first_named(t.columns@, f.column_schema.column_name@, i) {
                    let i = choose|i: int| first_named(t.columns@, f.column_schema.column_name@, i);
                    assert(!first_named(t.columns@, f.column_schema.column_name@, i));
                }
            }
            return (Prepared::PassAll, Some(FilterIssue::ColumnMissing));
        },
    };
    proof {
        let j = choose|i: int| first_named(t.columns@, f.column_schema.column_name@, i);
        lemma_first_named_unique(t.columns@, f.column_schema.column_name@, col as int, j);
        assert(resolve(*t, *f) == Some(col as int));
    }
    let k = t.columns[col].kind;
    match &f.kind {
        FilterKind::Compare { op, value } => match coerce_literal(k, value) {
            Some(lit) => (Prepared::Check { col, pred: Pred::Cmp { op: *op, lit } }, None),
            None => (Prepared::PassAll, Some(FilterIssue::BadLiteral)),
        },
        FilterKind::NotNull => (
            Prepared::Check { col, pred: Pred::Null { want_missing: false } },
            None,
        ),
        FilterKind::IsNull => (Prepared::Check { col, pred: Pred::Null { want_missing: true } }, None),
        FilterKind::IsEmpty => if k == ColumnKind::Text {
            (Prepared::Check { col, pred: Pred::Empty }, None)
        } else {
            (Prepared::PassAll, Some(FilterIssue::UnsupportedType))
        },
        FilterKind::IsTrue => if k == ColumnKind::Boolean {
            (Prepared::Check { col, pred: Pred::Truth { want: true } }, None)
        } else {
            (Prepared::PassAll, Some(FilterIssue::UnsupportedType))
        },
        FilterKind::IsFalse => if k == ColumnKind::Boolean {
            (Prepared::Check { col, pred: Pred::Truth { want: false } }, None)
        } else {
            (Prepared::PassAll, Some(FilterIssue::UnsupportedType))
        },
        FilterKind::Search { search_type, term, case_sensitive } => {
            if k != ColumnKind::Text {
                return (Prepared::PassAll, Some(FilterIssue::UnsupportedType));
            }
            let needle = if *case_sensitive {
                chars_of(term.as_str())
            } else {
                lower_chars(term.as_str())
            };
            let pattern = match search_type {
                TextSearchType::RegexMatch => match crate::text::compile_pattern(
                    term.as_str(),
                    *case_sensitive,
                ) {
                    Some(p) => Some(p),
                    None => {
                        return (Prepared::PassAll, Some(FilterIssue::BadPattern));
                    },
                },
                _ => None,
            };
            (
                Prepared::Check {
                    col,
                    pred: Pred::Search {
                        search_type: *search_type,
                        needle,
                        case_sensitive: *case_sensitive,
                        pattern,
                    },
                },
                None,
            )
        },
        FilterKind::SetMembership { values, inclusive } => {
            let mut lits: Vec<Literal> = Vec::new();
            let mut j: usize = 0;
            while j < values.len()
                invariant
                    0 <= j <= values@.len(),
                    lits@.len() == j,
                    forall|i: int|
                        0 <= i < j ==> (#[trigger] lits@[i]).lit() == coerce(k, values@[i]@)->0,
                    forall|i: int| 0 <= i < j ==> (#[trigger] coerce(k, values@[i]@)) is Some,
                decreases values.len() - j,
            {
                match coerce_literal(k, &values[j]) {
                    Some(l) => {
                        lits.push(l);
                    },
                    None => {
                        assert(!all_coerce(k, values@)) by {
                            assert(coerce(k, values@[j as int]@) is None);
                        }
                        return (Prepared::PassAll, Some(FilterIssue::BadLiteral));
                    },
                }
                j = j + 1;
            }
            (Prepared::Check { col, pred: Pred::Member { lits, inclusive: *inclusive } }, None)
        },
    }
}

fn has_value_exec(c: &CellValue, k: ColumnKind) -> (r: bool)
    ensures
        r == has_value(*c, k),
{
    match c {
        CellValue::Number(_) => k == ColumnKind::Number || k == ColumnKind::Integer,
        CellValue::Text(_) => k == ColumnKind::Text,
        CellValue::Boolean(_) => k == ColumnKind::Boolean,
        CellValue::Temporal(_) => k == ColumnKind::Date || k == ColumnKind::Datetime,
        _ => false,
    }
}

#[verifier::rlimit(40)]
fn pred_keeps(pred: &Pred, k: ColumnKind, c: &CellValue, Ghost(fk): Ghost<FilterKind>) -> (r: bool)
    requires
        pred_for(fk, k, *pred),
        kind_issue(fk, k) is None,
    ensures
        r == kind_keeps(fk, k, *c),
{
    match pred {
        Pred::Cmp { op, lit } => match cell_vs_literal(c, lit) {
            Some(d) => match op {
                CompareOp::Lt => d < 0,
                CompareOp::Lte => d <= 0,
                CompareOp::Gt => d > 0,
                CompareOp::Gte => d >= 0,
                CompareOp::Eq => d == 0,
                CompareOp::Neq => d != 0,
            },
            None => false,
        },
        Pred::Null { want_missing } => {
            let m = match c {
                CellValue::Missing => true,
                _ => false,
            };
            if *want_missing {
                m
            } else {
                !m
            }
        },
        Pred::Empty => match c {
            CellValue::Text(x) => x.unicode_len() == 0,
            _ => false,
        },
        Pred::Truth { want } => match c {
            CellValue::Boolean(b) => *b == *want,
            _ => false,
        },
        Pred::Search { search_type, needle, case_sensitive, pattern } => match c {
            CellValue::Text(x) => {
                match search_type {
                    TextSearchType::RegexMatch => match pattern {
                        Some(p) => crate::text::regex_is_match(p, x.as_str()),
                        None => false,
                    },
                    _ => {
                        let h = if *case_sensitive {
                            chars_of(x.as_str())
                        } else {
                            lower_chars(x.as_str())
                        };
                        match search_type {
                            TextSearchType::Contains => contains_chars(&h, needle),
                            TextSearchType::StartsWith => starts_with_chars(&h, needle),
                            _ => ends_with_chars(&h, needle),
                        }
                    },
                }
            },
            _ => false,
        },
        Pred::Member { lits, inclusive } => {
            if !has_value_exec(c, k) {
                return false;
            }
            let ghost values = match fk {
                FilterKind::SetMembership { values, inclusive } => values@,
                _ => Seq::empty(),
            };
            let mut found = false;
            let mut j: usize = 0;
            while j < lits.len()
                invariant
                    0 <= j <= lits@.len(),
                    lits@.len() == values.len(),
                    forall|i: int|
                        0 <= i < lits@.len() ==> (#[trigger] lits@[i]).lit() == coerce(
                            k,
                            values[i]@,
                        )->0,
                    found == exists|i: int|
                        0 <= i < j && cell_vs(*c, coerce(k, #[trigger] values[i]@)->0) == Some(
                            0int,
                        ),
                decreases lits.len() - j,
            {
                let d = cell_vs_literal(c, &lits[j]);
                if let Some(z) = d {
                    if z == 0 {
                        found = true;
                    }
                }
                proof {
                    assert(lits@[j as int].lit() == coerce(k, values[j as int]@)->0);
                }
                j = j + 1;
            }
            if *inclusive {
                found
            } else {
                !found
            }
        },
    }
}

/// Whether prepared filter `p` keeps `row`.
pub fn prepared_keeps(t: &DataTable, p: &Prepared, Ghost(f): Ghost<RowFilter>, row: usize) -> (r:
    bool)
    requires
        t.wf(),
        prepared_for(*t, f, *p),
        row < t.num_rows,
    ensures
        r == filter_keeps(*t, f, row as int),
{
    match p {
        Prepared::PassAll => true,
        Prepared::Check { col, pred } => {
            let c = &t.columns[*col];
            assert(t.columns@[*col as int].values@.len() == t.num_rows);
            pred_keeps(pred, c.kind, &c.values[row], Ghost(f.kind))
        },
    }
}

/// Prepares every filter of a list against a table.
pub fn prepare_all(t: &DataTable, fs: &Vec<RowFilter>) -> (r: (Vec<Prepared>, Vec<Option<FilterIssue>>))
    ensures
        r.0@.len() == fs@.len(),
        r.1@.len() == fs@.len(),
        forall|i: int| 0 <= i < fs@.len() ==> prepared_for(*t, fs@[i], #[trigger] r.0@[i]),
        forall|i: int| 0 <= i < fs@.len() ==> #[trigger] r.1@[i] == filter_issue(*t, fs@[i]),
{
    let mut ps: Vec<Prepared> = Vec::new();
    let mut issues: Vec<Option<FilterIssue>> = Vec::new();
    let mut i: usize = 0;
    while i < fs.len()
        invariant
            0 <= i <= fs@.len(),
            ps@.len() == i,
            issues@.len() == i,
            forall|j: int| 0 <= j < i ==> prepared_for(*t, fs@[j], #[trigger] ps@[j]),
            forall|j: int| 0 <= j < i ==> #[trigger] issues@[j] == filter_issue(*t, fs@[j]),
        decreases fs.len() - i,
    {
        let (p, issue) = prepare_filter(t, &fs[i]);
        ps.push(p);
        issues.push(issue);
        i = i + 1;
    }
    (ps, issues)
}

/// Whether the whole filter list selects `row`.
pub fn row_selected(
    t: &DataTable,
    fs: &Vec<RowFilter>,
    ps: &Vec<Prepared>,
    row: usize,
) -> (r: bool)
    requires
        t.wf(),
        row < t.num_rows,
        ps@.len() == fs@.len(),
        forall|i: int| 0 <= i < fs@.len() ==> prepared_for(*t, fs@[i], #[trigger] ps@[i]),
    ensures
        r == selected(*t, fs@, row as int),
{
    if fs.len() == 0 {
        return true;
    }
    let mut m = prepared_keeps(t, &ps[0], Ghost(fs@[0]), row);
    let mut k: usize = 1;
    while k < fs.len()
        invariant
            1 <= k <= fs@.len(),
            ps@.len() == fs@.len(),
            t.wf(),
            row < t.num_rows,
            forall|i: int| 0 <= i < fs@.len() ==> prepared_for(*t, fs@[i], #[trigger] ps@[i]),
            m == mask_upto(*t, fs@, k as int, row as int),
        decreases fs.len() - k,
    {
        let keep = prepared_keeps(t, &ps[k], Ghost(fs@[k as int]), row);
        m = match fs[k].condition {
            FilterCondition::And => m && keep,
            FilterCondition::Or => m || keep,
        };
        k = k + 1;
    }
    m
}

/// Evaluates a filter list: the selected rows in source order, and for each
/// filter the issue that makes it invalid, if any.
pub fn evaluate_filters(t: &DataTable, fs: &Vec<RowFilter>) -> (r: (
    Vec<usize>,
    Vec<Option<FilterIssue>>,
))
    requires
        t.wf(),
    ensures
        r.0@ == selected_rows(*t, fs@),
        r.1@.len() == fs@.len(),
        forall|i: int| 0 <= i < fs@.len() ==> #[trigger] r.1@[i] == filter_issue(*t, fs@[i]),
{
    let (ps, issues) = prepare_all(t, fs);
    let mut rows: Vec<usize> = Vec::new();
    let mut row: usize = 0;
    while row < t.num_rows
        invariant
            0 <= row <= t.num_rows,
            t.wf(),
            ps@.len() == fs@.len(),
            forall|i: int| 0 <= i < fs@.len() ==> prepared_for(*t, fs@[i], #[trigger] ps@[i]),
            rows@ == selected_below(*t, fs@, row as int),
        decreases t.num_rows - row,
    {
        if row_selected(t, fs, &ps, row) {
            rows.push(row);
        }
        row = row + 1;
    }
    (rows, issues)
}

} // verus!
