use table_view::filter::{CompareOp, FilterCondition, FilterKind, RowFilter};
use table_view::format::{FormatOptions, FormattedValue, SpecialCode};
use table_view::schema::{column_schema, get_schema, ColumnDisplayType};
use table_view::selection::{ArraySelection, ColumnSelection, ExportFormat, TableSelection};
use table_view::sort::SortKey;
use table_view::table::{CellValue, Column, ColumnKind, DataTable, SpecialValue};
use table_view::session::{BackendReply, BackendRequest};
use table_view::view::{ChangeEvent, ViewSession};

fn num(v: i64) -> CellValue {
    CellValue::Number(v * 1_000_000)
}

fn text(s: &str) -> CellValue {
    CellValue::Text(s.to_string())
}

fn table(columns: Vec<(&str, ColumnKind, Vec<CellValue>)>) -> DataTable {
    let cols = columns
        .into_iter()
        .map(|(name, kind, values)| Column { name: name.to_string(), kind, values })
        .collect();
    DataTable::new(cols, None).unwrap()
}

fn default_format_options() -> FormatOptions {
    FormatOptions {
        large_num_digits: 2,
        small_num_digits: 4,
        max_integral_digits: 7,
        thousands_sep: Some(",".to_string()),
        max_value_length: 100,
    }
}

fn range(first: usize, last: usize) -> ArraySelection {
    ArraySelection::SelectRange { first_index: first, last_index: last }
}

fn texts(s: &ViewSession, col: usize, sel: ArraySelection) -> Vec<String> {
    let req = vec![ColumnSelection { column_index: col, spec: sel }];
    let vals = s.get_data_values(&req, &default_format_options());
    assert_eq!(vals.len(), 1);
    vals[0]
        .iter()
        .map(|v| match v {
            FormattedValue::Text(t) => t.clone(),
            FormattedValue::Special(c) => panic!("special value {:?}", c),
        })
        .collect()
}

fn asc(col: usize) -> SortKey {
    SortKey { column_index: col, ascending: true }
}

fn x_table(y: [i64; 3]) -> DataTable {
    table(vec![
        ("y", ColumnKind::Number, y.iter().map(|v| num(*v)).collect()),
        ("z", ColumnKind::Number, vec![num(4), num(5), num(6)]),
    ])
}

#[test]
fn test_live_updates() {
    let mut s = ViewSession::new(x_table([3, 2, 1]));
    assert_eq!(s.on_source_change(Some(x_table([0, 2, 1]))), Some(ChangeEvent::DataUpdate));
    s.set_sort_columns(vec![asc(0)]);
    assert_eq!(texts(&s, 0, range(0, 2)), vec!["0.00", "1.00", "2.00"]);
    assert_eq!(s.on_source_change(Some(x_table([3, 2, 1]))), Some(ChangeEvent::DataUpdate));
    assert_eq!(texts(&s, 0, range(0, 2)), vec!["1.00", "2.00", "3.00"]);
    let replaced = table(vec![
        ("y", ColumnKind::Text, vec![text("y")]),
        ("z", ColumnKind::Text, vec![text("z")]),
        ("three", ColumnKind::Text, vec![text("3")]),
    ]);
    assert_eq!(s.on_source_change(Some(replaced)), Some(ChangeEvent::SchemaUpdate));
    assert_eq!(get_schema(s.source(), &vec![0, 1, 2]).len(), 3);
    assert_eq!(s.on_source_change(None), Some(ChangeEvent::Closed));
    assert!(s.closed());
    assert_eq!(s.on_source_change(Some(x_table([1, 2, 3]))), None);
}

#[test]
fn unchanged_source_sends_no_event() {
    let mut s = ViewSession::new(x_table([3, 2, 1]));
    assert_eq!(s.on_source_change(Some(x_table([3, 2, 1]))), None);
}

fn ab_table(a: [i64; 4]) -> DataTable {
    table(vec![
        ("a", ColumnKind::Number, a.iter().map(|v| num(*v)).collect()),
        ("b", ColumnKind::Text, vec![text("a"), text("b"), text("c"), text("d")]),
    ])
}

#[test]
fn test_update_data_filters_reapplied() {
    let t = ab_table([3, 3, 3, 1]);
    let mut s = ViewSession::new(t.clone());
    let gt1 = RowFilter {
        filter_id: "0DB2F23D-B299-4068-B8D5-A2B513A93330".to_string(),
        column_schema: column_schema(&t, 0),
        kind: FilterKind::Compare { op: CompareOp::Gt, value: "1".to_string() },
        condition: FilterCondition::And,
        is_valid: None,
        error_message: None,
    };
    let r = s.set_row_filters(vec![gt1]);
    assert_eq!(r.selected_num_rows, 3);
    assert!(!r.had_errors);
    s.set_sort_columns(vec![asc(0)]);
    assert_eq!(texts(&s, 1, range(0, 4)), vec!["a", "b", "c"]);
    assert_eq!(s.on_source_change(Some(ab_table([3, 2, 1, 1]))), Some(ChangeEvent::DataUpdate));
    assert_eq!(texts(&s, 0, range(0, 4)).len(), 2);
    assert_eq!(texts(&s, 1, range(0, 4)), vec!["b", "a"]);
    assert_eq!(texts(&s, 0, range(0, 4)), vec!["2.00", "3.00"]);
}

#[test]
fn test_data_update_num_rows() {
    let mut s = ViewSession::new(ab_table([3, 3, 3, 1]));
    assert_eq!(s.get_state().table_shape.num_rows, 4);
    let tail = table(vec![
        ("a", ColumnKind::Number, vec![num(3), num(1)]),
        ("b", ColumnKind::Text, vec![text("c"), text("d")]),
    ]);
    assert_eq!(s.on_source_change(Some(tail)), Some(ChangeEvent::DataUpdate));
    assert_eq!(s.get_state().table_shape.num_rows, 2);
}

#[test]
fn test_invalid_filters_preserved() {
    let t = table(vec![
        ("x", ColumnKind::Text, vec![text(""), text("a"), text("b")]),
        ("y", ColumnKind::Number, vec![num(1), num(2), num(3)]),
    ]);
    let mut s = ViewSession::new(t.clone());
    let x_is_empty = RowFilter {
        filter_id: "0DB2F23D-B299-4068-B8D5-A2B513A93330".to_string(),
        column_schema: column_schema(&t, 0),
        kind: FilterKind::IsEmpty,
        condition: FilterCondition::And,
        is_valid: None,
        error_message: None,
    };
    let r = s.set_row_filters(vec![x_is_empty]);
    assert_eq!(r.selected_num_rows, 1);
    assert!(!r.had_errors);

    let without_x = table(vec![("y", ColumnKind::Number, vec![num(1), num(2), num(3)])]);
    assert_eq!(s.on_source_change(Some(without_x)), Some(ChangeEvent::SchemaUpdate));
    assert_eq!(s.row_filters()[0].is_valid, Some(false));
    assert!(s.row_filters()[0].error_message.is_some());
    assert_eq!(s.get_state().table_shape.num_rows, 3);

    let x_back = table(vec![
        ("y", ColumnKind::Number, vec![num(1), num(2), num(3)]),
        ("x", ColumnKind::Text, vec![text(""), text("a"), text("b")]),
    ]);
    assert_eq!(s.on_source_change(Some(x_back)), Some(ChangeEvent::SchemaUpdate));
    assert_eq!(s.row_filters()[0].is_valid, Some(true));
    assert!(s.row_filters()[0].error_message.is_none());
    assert_eq!(s.get_state().table_shape.num_rows, 1);

    let x_numeric = table(vec![
        ("y", ColumnKind::Number, vec![num(1), num(2), num(3)]),
        ("x", ColumnKind::Number, vec![num(1), num(2), num(3)]),
    ]);
    assert_eq!(s.on_source_change(Some(x_numeric)), Some(ChangeEvent::SchemaUpdate));
    assert_eq!(s.row_filters()[0].is_valid, Some(false));
    assert!(s.row_filters()[0].error_message.is_some());
    assert_eq!(s.get_state().table_shape.num_rows, 3);
}

#[test]
fn test_data_explorer_special_values() {
    let t = table(vec![
        (
            "a",
            ColumnKind::Number,
            vec![
                num(1),
                CellValue::Missing,
                CellValue::Special(SpecialValue::NaN),
                CellValue::Special(SpecialValue::PosInf),
                CellValue::Special(SpecialValue::NegInf),
            ],
        ),
        ("b", ColumnKind::Text, vec![text("a"), text("b"), text("c"), text("d"), CellValue::Missing]),
        (
            "c",
            ColumnKind::Boolean,
            vec![
                CellValue::Boolean(true),
                CellValue::Boolean(false),
                CellValue::Missing,
                CellValue::Missing,
                CellValue::Missing,
            ],
        ),
        ("d", ColumnKind::Integer, vec![num(1), num(2), num(3), num(4), CellValue::Missing]),
    ]);
    let s = ViewSession::new(t);
    let req: Vec<ColumnSelection> =
        (0..4).map(|c| ColumnSelection { column_index: c, spec: range(0, 4) }).collect();
    let data = s.get_data_values(&req, &default_format_options());
    assert_eq!(data.len(), 4);
    assert!(matches!(&data[0][0], FormattedValue::Text(v) if v == "1.00"));
    assert_eq!(code(&data[0][1]), 1);
    assert_eq!(code(&data[0][2]), 2);
    assert_eq!(code(&data[0][3]), 10);
    assert_eq!(code(&data[0][4]), 11);
    assert_eq!(code(&data[1][4]), 1);
    assert_eq!(code(&data[2][4]), 1);
    assert_eq!(code(&data[3][4]), 1);
    assert!(matches!(&data[3][0], FormattedValue::Text(v) if v == "1"));
}

fn code(v: &FormattedValue) -> u8 {
    match v {
        FormattedValue::Special(c) => c.code(),
        FormattedValue::Text(t) => panic!("text {}", t),
    }
}

#[test]
fn test_get_data_values_by_indices() {
    let t = table(vec![
        ("x", ColumnKind::Integer, (1..=10).map(num).collect()),
        ("y", ColumnKind::Text, "abcdefghij".chars().map(|c| text(&c.to_string())).collect()),
        ("z", ColumnKind::Number, (0..10).map(|i| CellValue::Number(i * 1_000_000 / 9)).collect()),
    ]);
    let s = ViewSession::new(t);
    let idx = |v: Vec<usize>| ArraySelection::SelectIndices { indices: v };
    assert_eq!(texts(&s, 0, idx(vec![0, 9])), vec!["1", "10"]);
    assert_eq!(texts(&s, 1, idx(vec![2, 4])), vec!["c", "e"]);
    assert_eq!(texts(&s, 2, idx(vec![0, 9])), vec!["0.00", "1.00"]);
    assert_eq!(texts(&s, 2, idx(vec![0, 10])), vec!["0.00"]);
}

#[test]
fn out_of_range_columns_are_dropped() {
    let s = ViewSession::new(x_table([3, 2, 1]));
    let req = vec![
        ColumnSelection { column_index: 7, spec: range(0, 2) },
        ColumnSelection { column_index: 1, spec: range(1, 9) },
    ];
    let data = s.get_data_values(&req, &default_format_options());
    assert_eq!(data.len(), 1);
    assert_eq!(data[0].len(), 2);
}

#[test]
fn test_export_data() {
    let t = table(vec![
        ("a", ColumnKind::Number, vec![num(1), num(3), num(2)]),
        ("b", ColumnKind::Text, vec![text("a"), text("b"), text("c")]),
        ("c", ColumnKind::Boolean, vec![CellValue::Boolean(true), CellValue::Boolean(false), CellValue::Boolean(true)]),
    ]);
    let mut s = ViewSession::new(t.clone());
    let cell = TableSelection::SingleCell { row_index: 1, column_index: 1 };
    let o = default_format_options();
    assert_eq!(s.export_data_selection(&cell, ExportFormat::Csv, &o), "b");
    s.set_sort_columns(vec![SortKey { column_index: 0, ascending: false }]);
    assert_eq!(s.export_data_selection(&cell, ExportFormat::Csv, &o), "c");
    let is_true = RowFilter {
        filter_id: "1".to_string(),
        column_schema: column_schema(&t, 2),
        kind: FilterKind::IsTrue,
        condition: FilterCondition::And,
        is_valid: None,
        error_message: None,
    };
    s.set_row_filters(vec![is_true]);
    assert_eq!(s.export_data_selection(&cell, ExportFormat::Csv, &o), "a");
}

#[test]
fn export_range_with_header_and_quotes() {
    let t = table(vec![
        ("n", ColumnKind::Number, vec![num(1234), CellValue::Missing]),
        ("s", ColumnKind::Text, vec![text("x,y"), text("say \"hi\"")]),
    ]);
    let s = ViewSession::new(t);
    let all = TableSelection::CellRange {
        first_row_index: 0,
        last_row_index: 5,
        first_column_index: 0,
        last_column_index: 1,
    };
    let csv = s.export_data_selection(&all, ExportFormat::Csv, &default_format_options());
    assert_eq!(csv, "n,s\n\"1,234.00\",\"x,y\"\nNA,\"say \"\"hi\"\"\"");
    let tsv = s.export_data_selection(
        &TableSelection::ColumnIndices { indices: vec![1] },
        ExportFormat::Tsv,
        &default_format_options(),
    );
    assert_eq!(tsv, "s\nx,y\n\"say \"\"hi\"\"\"");
}

#[test]
fn test_row_labels() {
    let cols = vec![Column { name: "mpg".to_string(), kind: ColumnKind::Number, values: vec![num(21), num(18), num(24)] }];
    let labels = Some(vec!["Mazda RX4".to_string(), "Valiant".to_string(), "Merc 240D".to_string()]);
    let mut s = ViewSession::new(DataTable::new(cols, labels).unwrap());
    s.set_sort_columns(vec![asc(0)]);
    let got = s.get_row_labels(&ArraySelection::SelectIndices { indices: vec![0, 1, 2, 3] });
    assert_eq!(got, vec!["Valiant", "Mazda RX4", "Merc 240D"]);
    let plain = ViewSession::new(x_table([3, 2, 1]));
    assert_eq!(plain.get_row_labels(&range(1, 2)), vec!["2", "3"]);
}

#[test]
fn sort_is_stable_and_refined_by_second_key() {
    let t = table(vec![
        ("cyl", ColumnKind::Number, vec![num(6), num(4), num(6), num(8), num(4)]),
        ("mpg", ColumnKind::Number, vec![num(21), num(22), num(19), num(15), num(30)]),
    ]);
    let mut s = ViewSession::new(t);
    s.set_sort_columns(vec![asc(0)]);
    let once = s.view_rows().clone();
    assert_eq!(once, vec![1, 4, 0, 2, 3]);
    s.set_sort_columns(vec![asc(0)]);
    assert_eq!(s.view_rows().clone(), once);
    s.set_sort_columns(vec![
        SortKey { column_index: 0, ascending: false },
        SortKey { column_index: 1, ascending: false },
    ]);
    assert_eq!(s.view_rows().clone(), vec![3, 0, 2, 4, 1]);
    s.set_sort_columns(vec![asc(0), asc(1)]);
    assert_eq!(s.view_rows().clone(), vec![1, 4, 2, 0, 3]);
}

#[test]
fn missing_values_sort_last_both_ways() {
    let t = table(vec![("v", ColumnKind::Number, vec![num(2), CellValue::Missing, num(1)])]);
    let mut s = ViewSession::new(t);
    s.set_sort_columns(vec![asc(0)]);
    assert_eq!(s.view_rows().clone(), vec![2, 0, 1]);
    s.set_sort_columns(vec![SortKey { column_index: 0, ascending: false }]);
    assert_eq!(s.view_rows().clone(), vec![0, 2, 1]);
}

#[test]
fn schema_labels_and_display_types() {
    let t = table(vec![
        ("a", ColumnKind::Number, vec![num(1)]),
        ("b", ColumnKind::Text, vec![text("a")]),
        ("c", ColumnKind::Boolean, vec![CellValue::Boolean(true)]),
        ("e", ColumnKind::Date, vec![CellValue::Temporal(18628)]),
        ("f", ColumnKind::Datetime, vec![CellValue::Temporal(1609462800)]),
        ("g", ColumnKind::Integer, vec![num(1)]),
    ]);
    let schema = get_schema(&t, &vec![0, 1, 2, 3, 4, 5, 99]);
    assert_eq!(schema.len(), 6);
    let expected = [
        (ColumnDisplayType::Number, "dbl"),
        (ColumnDisplayType::String, "str"),
        (ColumnDisplayType::Boolean, "lgl"),
        (ColumnDisplayType::Date, "Date"),
        (ColumnDisplayType::Datetime, "POSIXct"),
        (ColumnDisplayType::Number, "int"),
    ];
    for (i, (display, label)) in expected.iter().enumerate() {
        assert_eq!(schema[i].type_display, *display);
        assert_eq!(schema[i].type_label_text, label.to_string());
        assert_eq!(schema[i].column_index, i);
    }
}

#[test]
fn closed_session_reports_closed_once() {
    let mut s = ViewSession::new(x_table([1, 2, 3]));
    assert_eq!(s.on_source_change(None), Some(ChangeEvent::Closed));
    assert_eq!(s.on_source_change(None), None);
}

#[test]
fn special_code_values() {
    assert_eq!(SpecialCode::Na.code(), 1);
    assert_eq!(SpecialCode::NaN.code(), 2);
    assert_eq!(SpecialCode::PosInf.code(), 10);
    assert_eq!(SpecialCode::NegInf.code(), 11);
}

#[test]
fn dispatch_requests_until_closed() {
    let mut s = ViewSession::new(x_table([3, 2, 1]));
    match s.handle_request(BackendRequest::SetSortColumns { sort_keys: vec![asc(0)] }) {
        Some(BackendReply::SetSortColumnsReply) => {},
        _ => panic!("expected a sort reply"),
    }
    match s.handle_request(BackendRequest::GetState) {
        Some(BackendReply::GetStateReply(st)) => {
            assert_eq!(st.table_shape.num_rows, 3);
            assert_eq!(st.num_sort_keys, 1);
        },
        _ => panic!("expected a state reply"),
    }
    match s.handle_request(BackendRequest::ExportDataSelection {
        selection: TableSelection::SingleCell { row_index: 0, column_index: 0 },
        format: ExportFormat::Tsv,
        format_options: default_format_options(),
    }) {
        Some(BackendReply::ExportDataSelectionReply { data, format }) => {
            assert_eq!(data, "1.00");
            assert_eq!(format, ExportFormat::Tsv);
        },
        _ => panic!("expected an export reply"),
    }
    assert_eq!(s.on_source_change(None), Some(ChangeEvent::Closed));
    assert!(s.handle_request(BackendRequest::GetState).is_none());
}
