use table_view::filter::{coerce_literal, Literal};
use table_view::format::{fixed_chars, format_cell, FormatOptions, FormattedValue};
use table_view::has_priority_prefix;
use table_view::frontend::{DapState, FrontendEvent, InputRequest};
use table_view::literal::{parse_bool, parse_date, parse_datetime, parse_decimal};
use table_view::table::{CellValue, ColumnKind};
use table_view::text::{compare_chars, contains_chars, lower_chars};

fn chars(s: &str) -> Vec<char> {
    s.chars().collect()
}

#[test]
fn decimal_literals() {
    assert_eq!(parse_decimal(&chars("1")), Some(1_000_000));
    assert_eq!(parse_decimal(&chars("-2.5")), Some(-2_500_000));
    assert_eq!(parse_decimal(&chars("10.26")), Some(10_260_000));
    assert_eq!(parse_decimal(&chars("0.000001")), Some(1));
    assert_eq!(parse_decimal(&chars("1.")), None);
    assert_eq!(parse_decimal(&chars(".5")), None);
    assert_eq!(parse_decimal(&chars("1.0000001")), None);
    assert_eq!(parse_decimal(&chars("abc")), None);
    assert_eq!(parse_decimal(&chars("")), None);
    assert_eq!(parse_decimal(&chars("9223372036854")), Some(9_223_372_036_854_000_000));
    assert_eq!(parse_decimal(&chars("9223372036855")), None);
}

#[test]
fn date_literals() {
    assert_eq!(parse_date(&chars("1970-01-01")), Some(0));
    assert_eq!(parse_date(&chars("2021-01-01")), Some(18628));
    assert_eq!(parse_date(&chars("2024-02-29")), Some(19782));
    assert_eq!(parse_date(&chars("2023-02-29")), None);
    assert_eq!(parse_date(&chars("1969-12-31")), Some(-1));
    assert_eq!(parse_datetime(&chars("2024-01-01 01:00:00")), Some(1704070800));
    assert_eq!(parse_datetime(&chars("2024-01-01")), Some(1704067200));
    assert_eq!(parse_datetime(&chars("2024-01-01 24:00:00")), None);
    assert_eq!(parse_datetime(&chars("marshmallows")), None);
}

#[test]
fn boolean_literals() {
    assert_eq!(parse_bool(&chars("TRUE")), Some(true));
    assert_eq!(parse_bool(&chars("false")), Some(false));
    assert_eq!(parse_bool(&chars("yes")), None);
}

#[test]
fn coerce_by_column_type() {
    assert!(matches!(coerce_literal(ColumnKind::Number, &"3".to_string()), Some(Literal::Num(3_000_000))));
    assert!(coerce_literal(ColumnKind::Date, &"soon".to_string()).is_none());
    assert!(matches!(coerce_literal(ColumnKind::Text, &"soon".to_string()), Some(Literal::Text(_))));
}

fn opts(sep: Option<&str>, max_len: usize) -> FormatOptions {
    FormatOptions {
        large_num_digits: 2,
        small_num_digits: 4,
        max_integral_digits: 7,
        thousands_sep: sep.map(|s| s.to_string()),
        max_value_length: max_len,
    }
}

fn shown(c: CellValue, k: ColumnKind, o: &FormatOptions) -> String {
    match format_cell(&c, k, o) {
        FormattedValue::Text(s) => s,
        FormattedValue::Special(c) => panic!("special {:?}", c),
    }
}

#[test]
fn number_formatting() {
    let o = opts(Some(","), 100);
    assert_eq!(shown(CellValue::Number(10_400_000), ColumnKind::Number, &o), "10.40");
    assert_eq!(shown(CellValue::Number(1_234_567_890_000), ColumnKind::Number, &o), "1,234,567.89");
    assert_eq!(shown(CellValue::Number(123_456), ColumnKind::Number, &o), "0.1235");
    assert_eq!(shown(CellValue::Number(-5_000), ColumnKind::Number, &o), "-0.0050");
    assert_eq!(shown(CellValue::Number(-4), ColumnKind::Number, &o), "0.0000");
    assert_eq!(shown(CellValue::Number(0), ColumnKind::Number, &o), "0.00");
    assert_eq!(shown(CellValue::Number(2_500_000), ColumnKind::Integer, &o), "3");
    assert_eq!(shown(CellValue::Number(12_345_000_000), ColumnKind::Integer, &opts(None, 100)), "12345");
    assert_eq!(String::from_iter(fixed_chars(-1_005_000, 2, &vec!['.']).iter()), "-1.01");
}

#[test]
fn other_formatting() {
    let o = opts(None, 5);
    assert_eq!(shown(CellValue::Text("refrigerator".to_string()), ColumnKind::Text, &o), "refri");
    assert_eq!(shown(CellValue::Boolean(true), ColumnKind::Boolean, &o), "TRUE");
    assert_eq!(shown(CellValue::Temporal(19782), ColumnKind::Date, &o), "2024-02-29");
    assert_eq!(shown(CellValue::Temporal(-1), ColumnKind::Date, &o), "1969-12-31");
    assert_eq!(shown(CellValue::Temporal(1704070800), ColumnKind::Datetime, &o), "2024-01-01 01:00:00");
    assert_eq!(shown(CellValue::Temporal(-1), ColumnKind::Datetime, &o), "1969-12-31 23:59:59");
}

#[test]
fn text_helpers() {
    assert!(contains_chars(&chars("that will be $10.26"), &chars(".")));
    assert!(!contains_chars(&chars("weasel"), &chars(".")));
    assert_eq!(compare_chars(&chars("abc"), &chars("abd")), -1);
    assert_eq!(compare_chars(&chars("ab"), &chars("a")), 1);
    assert_eq!(compare_chars(&chars("ab"), &chars("ab")), 0);
    assert_eq!(lower_chars("ÀbC"), chars("àbc"));
}

#[test]
fn priority_prefix() {
    assert!(has_priority_prefix("0-foo"));
    assert!(!has_priority_prefix("1-foo"));
    assert!(!has_priority_prefix("0"));
    assert!(!has_priority_prefix(""));
}

#[test]
fn frontend_messages() {
    assert_eq!(InputRequest::message_type(), "input_request");
    assert_eq!(FrontendEvent::ClearConsole.method(), "clear_console");
    let state = DapState::new();
    assert!(!state.is_debugging);
    assert!(!state.is_connected);
    assert!(state.stack.is_none());
}

#[test]
fn long_numbers_switch_to_scientific() {
    let o = opts(Some(","), 100);
    assert_eq!(shown(CellValue::Number(123_456_789_500_000), ColumnKind::Number, &o), "1.23e+08");
    assert_eq!(shown(CellValue::Number(-123_456_789_500_000), ColumnKind::Number, &o), "-1.23e+08");
    assert_eq!(shown(CellValue::Number(999_999_999_000_000), ColumnKind::Number, &o), "1.00e+09");
    assert_eq!(shown(CellValue::Number(9_999_999_000_000), ColumnKind::Number, &o), "9,999,999.00");
    assert_eq!(shown(CellValue::Number(12_345_678_000_000), ColumnKind::Integer, &o), "1.23e+07");
}
