use table_view::filter::{
    CompareOp, FilterCondition, FilterIssue, FilterKind, RowFilter, TextSearchType,
};
use table_view::schema::column_schema;
use table_view::table::{CellValue, Column, ColumnKind, DataTable};
use table_view::view::ViewSession;

fn num(v: i64) -> CellValue {
    CellValue::Number(v * 1_000_000)
}

fn text(s: &str) -> CellValue {
    CellValue::Text(s.to_string())
}

fn table(columns: Vec<(&str, ColumnKind, Vec<CellValue>)>) -> DataTable {
    let cols = columns
        .into_iter()
        .map(|(name, kind, values)| Column { name: name.to_string(), kind, values })
        .collect();
    DataTable::new(cols, None).unwrap()
}

fn filter(t: &DataTable, col: usize, id: &str, kind: FilterKind, condition: FilterCondition) -> RowFilter {
    RowFilter {
        filter_id: id.to_string(),
        column_schema: column_schema(t, col),
        kind,
        condition,
        is_valid: None,
        error_message: None,
    }
}

fn search(st: TextSearchType, term: &str) -> FilterKind {
    FilterKind::Search { search_type: st, term: term.to_string(), case_sensitive: false }
}

fn words() -> DataTable {
    table(vec![(
        "text",
        ColumnKind::Text,
        vec![
            text("lambent"),
            text("incandescent"),
            text("that will be $10.26"),
            text("pi is 3.14159"),
            text(""),
            text("weasel"),
            text("refrigerator"),
        ],
    )])
}

#[test]
fn test_search_filters() {
    let t = words();
    let mut s = ViewSession::new(t.clone());
    let dot = filter(&t, 0, "A58A4497-29E0-4407-BC25-67FEF73F6224", search(TextSearchType::Contains, "."), FilterCondition::And);
    let r = s.set_row_filters(vec![dot.clone()]);
    assert_eq!(r.selected_num_rows, 2);
    assert!(!r.had_errors);

    let ent = filter(&t, 0, "4BA46699-EF41-4FA8-A927-C8CD88520D6E", search(TextSearchType::EndsWith, "ent"), FilterCondition::Or);
    let r = s.set_row_filters(vec![dot, ent]);
    assert_eq!(r.selected_num_rows, 4);
    assert!(!r.had_errors);

    let empty = filter(&t, 0, "3F032747-4667-40CB-9013-AA659AE37F1C", FilterKind::IsEmpty, FilterCondition::And);
    let r = s.set_row_filters(vec![empty]);
    assert_eq!(r.selected_num_rows, 1);
    assert!(!r.had_errors);
    let state = s.get_state();
    assert_eq!(state.table_shape.num_rows, 1);
    assert_eq!(state.table_unfiltered_shape.num_rows, 7);

    // Comparing a date-time column with a word is an invalid filter.
    let dates = table(vec![(
        "date",
        ColumnKind::Datetime,
        vec![
            CellValue::Temporal(1704070800),
            CellValue::Temporal(1704160800),
            CellValue::Temporal(1704250800),
        ],
    )]);
    let mut s = ViewSession::new(dates.clone());
    let year = filter(
        &dates,
        0,
        "0DB2F23D-B299-4068-B8D5-A2B513A93330",
        FilterKind::Compare { op: CompareOp::Gt, value: "marshmallows".to_string() },
        FilterCondition::And,
    );
    let r = s.set_row_filters(vec![year]);
    assert_eq!(r.selected_num_rows, 3);
    assert!(r.had_errors);
    assert_eq!(s.row_filters()[0].is_valid, Some(false));
    assert!(s.row_filters()[0].error_message.is_some());

    let bools = bool_table();
    let mut s = ViewSession::new(bools.clone());
    let yes = filter(&bools, 0, "16B3E3E7-44D0-4003-B6BD-46EE0629F067", FilterKind::IsTrue, FilterCondition::And);
    let r = s.set_row_filters(vec![yes]);
    assert_eq!(r.selected_num_rows, 3);
    assert!(!r.had_errors);
}

fn bool_table() -> DataTable {
    table(vec![(
        "bool",
        ColumnKind::Boolean,
        vec![
            CellValue::Boolean(true),
            CellValue::Boolean(true),
            CellValue::Boolean(false),
            CellValue::Missing,
            CellValue::Boolean(true),
            CellValue::Boolean(false),
        ],
    )])
}

#[test]
fn test_boolean_filters() {
    let t = bool_table();
    let mut s = ViewSession::new(t.clone());
    let yes = filter(&t, 0, "16B3E3E7-44D0-4003-B6BD-46EE0629F067", FilterKind::IsTrue, FilterCondition::And);
    let r = s.set_row_filters(vec![yes]);
    assert_eq!(r.selected_num_rows, 3);
    assert!(!r.had_errors);
}

#[test]
fn is_false_skips_missing() {
    let t = bool_table();
    let mut s = ViewSession::new(t.clone());
    let no = filter(&t, 0, "f", FilterKind::IsFalse, FilterCondition::And);
    assert_eq!(s.set_row_filters(vec![no]).selected_num_rows, 2);
}

#[test]
fn test_invalid_filters() {
    let dates = table(vec![(
        "date",
        ColumnKind::Datetime,
        vec![
            CellValue::Temporal(1704070800),
            CellValue::Temporal(1704160800),
            CellValue::Temporal(1704250800),
        ],
    )]);
    let mut s = ViewSession::new(dates.clone());
    let year = filter(
        &dates,
        0,
        "0DB2F23D-B299-4068-B8D5-A2B513A93330",
        FilterKind::Compare { op: CompareOp::Gt, value: "marshmallows".to_string() },
        FilterCondition::And,
    );
    let r = s.set_row_filters(vec![year]);
    assert_eq!(r.selected_num_rows, 3);
    assert!(r.had_errors);
    assert_eq!(s.row_filters()[0].is_valid, Some(false));
    assert!(s.row_filters()[0].error_message.is_some());
}

#[test]
fn valid_datetime_comparison() {
    let dates = table(vec![(
        "date",
        ColumnKind::Datetime,
        vec![
            CellValue::Temporal(1704070800),
            CellValue::Temporal(1704160800),
            CellValue::Temporal(1704250800),
        ],
    )]);
    let mut s = ViewSession::new(dates.clone());
    let after = filter(
        &dates,
        0,
        "d",
        FilterKind::Compare { op: CompareOp::Gt, value: "2024-01-02 00:00:00".to_string() },
        FilterCondition::And,
    );
    let r = s.set_row_filters(vec![after]);
    assert_eq!(r.selected_num_rows, 2);
    assert!(!r.had_errors);
    assert_eq!(s.row_filters()[0].is_valid, Some(true));
    assert!(s.row_filters()[0].error_message.is_none());
}

#[test]
fn test_null_counts_filters() {
    let t = table(vec![(
        "col",
        ColumnKind::Number,
        vec![
            num(1),
            CellValue::Missing,
            num(2),
            num(3),
            num(5),
            CellValue::Missing,
            num(13),
            num(21),
            CellValue::Missing,
        ],
    )]);
    let mut s = ViewSession::new(t.clone());
    let not_null = filter(&t, 0, "048D4D03-A7B5-4825-BEB1-769B70DE38A6", FilterKind::NotNull, FilterCondition::And);
    let r = s.set_row_filters(vec![not_null]);
    assert_eq!(r.selected_num_rows, 6);
    assert!(!r.had_errors);
    let is_null = filter(&t, 0, "87E2E016-C853-4928-8914-8774125E3C87", FilterKind::IsNull, FilterCondition::And);
    let r = s.set_row_filters(vec![is_null]);
    assert_eq!(r.selected_num_rows, 3);
    assert!(!r.had_errors);
}

fn membership(t: &DataTable, values: &[&str], inclusive: bool) -> RowFilter {
    filter(
        t,
        0,
        "membership",
        FilterKind::SetMembership { values: values.iter().map(|v| v.to_string()).collect(), inclusive },
        FilterCondition::And,
    )
}

fn membership_counts(t: &DataTable, values: &[&str]) -> (usize, usize) {
    let mut s = ViewSession::new(t.clone());
    let inc = s.set_row_filters(vec![membership(t, values, true)]);
    assert!(!inc.had_errors);
    let exc = s.set_row_filters(vec![membership(t, values, false)]);
    assert!(!exc.had_errors);
    (inc.selected_num_rows, exc.selected_num_rows)
}

#[test]
fn set_membership_without_missing() {
    let fruit = table(vec![(
        "fruit",
        ColumnKind::Text,
        ["apple", "banana", "orange", "grape", "kiwi", "pear", "strawberry"].iter().map(|s| text(s)).collect(),
    )]);
    assert_eq!(membership_counts(&fruit, &["apple", "banana", "pear"]), (3, 4));
    let numbers = table(vec![("values", ColumnKind::Number, (1..=7).map(num).collect())]);
    assert_eq!(membership_counts(&numbers, &["1", "2", "3"]), (3, 4));
}

#[test]
fn set_membership_excludes_missing_from_both() {
    let fruit = table(vec![(
        "fruits",
        ColumnKind::Text,
        vec![
            text("apple"),
            text("banana"),
            CellValue::Missing,
            text("orange"),
            text("grape"),
            CellValue::Missing,
            text("pear"),
        ],
    )]);
    // Seven rows, two missing: the two forms together select five.
    assert_eq!(membership_counts(&fruit, &["apple", "banana"]), (2, 3));
    let numbers = table(vec![(
        "values",
        ColumnKind::Number,
        vec![num(1), num(2), CellValue::Missing, num(3), CellValue::Missing, num(4), num(5)],
    )]);
    assert_eq!(membership_counts(&numbers, &["1", "2"]), (2, 3));
    assert_eq!(membership_counts(&numbers, &["3"]), (1, 4));
    assert_eq!(membership_counts(&numbers, &[]), (0, 5));
}

#[test]
fn set_membership_bad_literal_is_invalid() {
    let numbers = table(vec![("values", ColumnKind::Number, (1..=4).map(num).collect())]);
    let mut s = ViewSession::new(numbers.clone());
    let r = s.set_row_filters(vec![membership(&numbers, &["1", "two"], true)]);
    assert!(r.had_errors);
    assert_eq!(r.selected_num_rows, 4);
}

#[test]
fn filter_chaining_or_then_and() {
    let t = table(vec![("x", ColumnKind::Number, (1..=6).map(num).collect())]);
    let mut s = ViewSession::new(t.clone());
    let lt2 = filter(&t, 0, "a", FilterKind::Compare { op: CompareOp::Lt, value: "2".to_string() }, FilterCondition::And);
    let gt4 = filter(&t, 0, "b", FilterKind::Compare { op: CompareOp::Gt, value: "4".to_string() }, FilterCondition::Or);
    let even = filter(&t, 0, "c", FilterKind::SetMembership { values: vec!["2".to_string(), "6".to_string()], inclusive: true }, FilterCondition::And);
    // x < 2 or x > 4: rows 1, 5, 6.
    assert_eq!(s.set_row_filters(vec![lt2.clone(), gt4.clone()]).selected_num_rows, 3);
    // (x < 2 or x > 4) and x in {2, 6}: row 6.
    assert_eq!(s.set_row_filters(vec![lt2, gt4, even]).selected_num_rows, 1);
    assert_eq!(s.view_rows().clone(), vec![5]);
}

#[test]
fn regex_search_and_bad_pattern() {
    let t = words();
    let mut s = ViewSession::new(t.clone());
    let digits = filter(&t, 0, "r", search(TextSearchType::RegexMatch, "[0-9]+\\.[0-9]+"), FilterCondition::And);
    let r = s.set_row_filters(vec![digits]);
    assert_eq!(r.selected_num_rows, 2);
    assert!(!r.had_errors);
    let broken = filter(&t, 0, "b", search(TextSearchType::RegexMatch, "foo(bar"), FilterCondition::And);
    let r = s.set_row_filters(vec![broken]);
    assert!(r.had_errors);
    assert_eq!(r.selected_num_rows, 7);
}

#[test]
fn case_insensitive_search_lowercases_both_sides() {
    let t = table(vec![("w", ColumnKind::Text, vec![text("Apple"), text("APPLE pie"), text("banana")])]);
    let mut s = ViewSession::new(t.clone());
    let f = filter(&t, 0, "s", search(TextSearchType::StartsWith, "aPp"), FilterCondition::And);
    assert_eq!(s.set_row_filters(vec![f]).selected_num_rows, 2);
    let cs = filter(
        &t,
        0,
        "c",
        FilterKind::Search { search_type: TextSearchType::Contains, term: "APPLE".to_string(), case_sensitive: true },
        FilterCondition::And,
    );
    assert_eq!(s.set_row_filters(vec![cs]).selected_num_rows, 1);
}

#[test]
fn filter_issue_kinds() {
    let t = table(vec![("n", ColumnKind::Number, vec![num(1)])]);
    let mut s = ViewSession::new(t.clone());
    let empty = filter(&t, 0, "e", FilterKind::IsEmpty, FilterCondition::And);
    let mut missing = filter(&t, 0, "m", FilterKind::NotNull, FilterCondition::And);
    missing.column_schema.column_name = "gone".to_string();
    let r = s.set_row_filters(vec![empty, missing]);
    assert!(r.had_errors);
    assert_eq!(s.row_filters()[0].error_message, Some(table_view::view::issue_text(FilterIssue::UnsupportedType)));
    assert_eq!(s.row_filters()[1].error_message, Some(table_view::view::issue_text(FilterIssue::ColumnMissing)));
}
