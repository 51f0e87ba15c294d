use table_view::format::{format_cell, FormatOptions, FormattedValue};
use table_view::frequency::FrequencyTable;
use table_view::histogram::histogram;
use table_view::profile::{
    isqrt, number_stats, ColumnProfileRequest, ProfileError, ProfileKind, ProfileResult,
    SummaryStats,
};
use table_view::table::{CellValue, Column, ColumnKind, DataTable, MICROS};
use table_view::view::ViewSession;
use table_view::filter::{FilterCondition, FilterKind, RowFilter};
use table_view::schema::column_schema;

fn num(v: i64) -> CellValue {
    CellValue::Number(v * MICROS)
}

fn text(s: &str) -> CellValue {
    CellValue::Text(s.to_string())
}

fn table(columns: Vec<(&str, ColumnKind, Vec<CellValue>)>) -> DataTable {
    let cols = columns
        .into_iter()
        .map(|(name, kind, values)| Column { name: name.to_string(), kind, values })
        .collect();
    DataTable::new(cols, None).unwrap()
}

fn default_format_options() -> FormatOptions {
    FormatOptions {
        large_num_digits: 2,
        small_num_digits: 4,
        max_integral_digits: 7,
        thousands_sep: Some(",".to_string()),
        max_value_length: 100,
    }
}

fn shown(v: Option<i64>) -> String {
    match format_cell(&CellValue::Number(v.unwrap()), ColumnKind::Number, &default_format_options()) {
        FormattedValue::Text(s) => s,
        FormattedValue::Special(c) => panic!("special {:?}", c),
    }
}

fn null_count(s: &ViewSession, col: usize) -> Result<usize, ProfileError> {
    let r = s.get_column_profiles(&ColumnProfileRequest { column_index: col, profiles: vec![ProfileKind::NullCount] }, &default_format_options());
    match &r[0] {
        ProfileResult::NullCount(x) => *x,
        other => panic!("unexpected {:?}", other),
    }
}

#[test]
fn test_null_counts() {
    let t = table(vec![(
        "col",
        ColumnKind::Number,
        vec![
            num(1),
            CellValue::Missing,
            num(2),
            num(3),
            num(5),
            CellValue::Missing,
            num(13),
            num(21),
            CellValue::Missing,
        ],
    )]);
    let mut s = ViewSession::new(t.clone());
    assert_eq!(null_count(&s, 0), Ok(3));
    let not_null = RowFilter {
        filter_id: "048D4D03-A7B5-4825-BEB1-769B70DE38A6".to_string(),
        column_schema: column_schema(&t, 0),
        kind: FilterKind::NotNull,
        condition: FilterCondition::And,
        is_valid: None,
        error_message: None,
    };
    let r = s.set_row_filters(vec![not_null]);
    assert_eq!(r.selected_num_rows, 6);
    assert_eq!(null_count(&s, 0), Ok(0));
    assert_eq!(null_count(&s, 5), Err(ProfileError::ColumnMissing));
}

#[test]
fn test_summary_stats() {
    let t = table(vec![
        ("num", ColumnKind::Number, vec![num(1), num(2), num(3), CellValue::Missing]),
        ("char", ColumnKind::Text, vec![text("a"), text("a"), text(""), CellValue::Missing]),
        (
            "bool",
            ColumnKind::Boolean,
            vec![CellValue::Boolean(true), CellValue::Boolean(true), CellValue::Boolean(false), CellValue::Missing],
        ),
    ]);
    let s = ViewSession::new(t);
    let stats: Vec<SummaryStats> = (0..3)
        .map(|c| {
            let r = s.get_column_profiles(&ColumnProfileRequest { column_index: c, profiles: vec![ProfileKind::SummaryStats] }, &default_format_options());
            match &r[0] {
                ProfileResult::SummaryStats(Ok(st)) => *st,
                other => panic!("unexpected {:?}", other),
            }
        })
        .collect();
    match stats[0] {
        SummaryStats::Number(n) => {
            assert_eq!(shown(n.min_value), "1.00");
            assert_eq!(shown(n.max_value), "3.00");
            assert_eq!(shown(n.mean), "2.00");
            assert_eq!(shown(n.median), "2.00");
            assert_eq!(shown(n.stdev), "1.00");
        },
        other => panic!("unexpected {:?}", other),
    }
    match stats[1] {
        SummaryStats::Text(x) => {
            assert_eq!(x.num_empty, 1);
            assert_eq!(x.num_unique, 3);
        },
        other => panic!("unexpected {:?}", other),
    }
    match stats[2] {
        SummaryStats::Boolean(b) => {
            assert_eq!(b.true_count, 2);
            assert_eq!(b.false_count, 1);
        },
        other => panic!("unexpected {:?}", other),
    }
}

#[test]
fn null_count_survives_failed_summary() {
    let t = table(vec![(
        "when",
        ColumnKind::Date,
        vec![CellValue::Temporal(0), CellValue::Missing, CellValue::Temporal(1)],
    )]);
    let s = ViewSession::new(t);
    let r = s.get_column_profiles(&ColumnProfileRequest {
        column_index: 0,
        profiles: vec![ProfileKind::NullCount, ProfileKind::SummaryStats, ProfileKind::Histogram { num_bins: 4 }],
    }, &default_format_options());
    assert_eq!(r.len(), 3);
    assert!(matches!(r[0], ProfileResult::NullCount(Ok(1))));
    assert!(matches!(r[1], ProfileResult::SummaryStats(Err(ProfileError::UnsupportedType))));
    assert!(matches!(r[2], ProfileResult::Histogram(Err(ProfileError::UnsupportedType))));
}

#[test]
fn overflowing_summary_does_not_block_null_count() {
    let t = table(vec![(
        "big",
        ColumnKind::Number,
        vec![CellValue::Number(i64::MAX), CellValue::Number(i64::MAX), CellValue::Number(i64::MAX), CellValue::Missing],
    )]);
    let s = ViewSession::new(t);
    let r = s.get_column_profiles(&ColumnProfileRequest {
        column_index: 0,
        profiles: vec![ProfileKind::SummaryStats, ProfileKind::NullCount],
    }, &default_format_options());
    assert!(matches!(r[0], ProfileResult::SummaryStats(Err(ProfileError::Overflow))));
    assert!(matches!(r[1], ProfileResult::NullCount(Ok(1))));
}

#[test]
fn median_of_even_count_and_negative_mean() {
    let st = number_stats(&vec![4 * MICROS, -1 * MICROS, -7 * MICROS, 2 * MICROS]).unwrap();
    assert_eq!(st.min_value, Some(-7 * MICROS));
    assert_eq!(st.max_value, Some(4 * MICROS));
    // (4 - 1 - 7 + 2) / 4 = -0.5
    assert_eq!(st.mean, Some(-500_000));
    // sorted: -7, -1, 2, 4 -> (-1 + 2) / 2
    assert_eq!(st.median, Some(500_000));
    let one = number_stats(&vec![5]).unwrap();
    assert_eq!(one.stdev, None);
    assert_eq!(one.median, Some(5));
    let none = number_stats(&vec![]).unwrap();
    assert_eq!(none.min_value, None);
}

#[test]
fn whole_square_root() {
    assert_eq!(isqrt(0), 0);
    assert_eq!(isqrt(15), 3);
    assert_eq!(isqrt(16), 4);
    assert_eq!(isqrt(u128::MAX), u64::MAX);
}

#[test]
fn histogram_nice_edges() {
    // 1..=10 with 10 - i + 1 copies of i, in millionths.
    let mut v = Vec::new();
    for i in 1..=10i64 {
        for _ in 0..(11 - i) {
            v.push(i * MICROS);
        }
    }
    let h = histogram(&v, 10).unwrap();
    // range 9, ten bins: width 0.9 rounds up to 1, start 1.
    assert_eq!(h.bin_edges.len(), 11);
    assert_eq!(h.bin_edges[0], MICROS);
    assert_eq!(h.bin_edges[10], 11 * MICROS);
    assert_eq!(h.bin_counts, vec![10, 9, 8, 7, 6, 5, 4, 3, 2, 1]);
    // Three bins: width 3 rounds up to 5, edges 0, 5, 10, 15.
    let h = histogram(&v, 3).unwrap();
    assert_eq!(h.bin_edges, vec![0, 5 * MICROS, 10 * MICROS, 15 * MICROS]);
    assert_eq!(h.bin_counts, vec![34, 20, 1]);
    let same = histogram(&vec![7, 7, 7], 5).unwrap();
    assert_eq!(same.bin_edges, vec![7, 7]);
    assert_eq!(same.bin_counts, vec![3]);
    assert_eq!(histogram(&vec![], 5).unwrap().bin_counts.len(), 0);
}

#[test]
fn histogram_with_negative_values() {
    let h = histogram(&vec![-3 * MICROS, 4 * MICROS], 2).unwrap();
    // range 7 over two bins: 3.5 rounds up to 5; start -5.
    assert_eq!(h.bin_edges, vec![-5 * MICROS, 0, 5 * MICROS]);
    assert_eq!(h.bin_counts, vec![1, 1]);
}

#[test]
fn histogram_needs_bins() {
    let t = table(vec![("n", ColumnKind::Number, vec![num(1), num(2)])]);
    let s = ViewSession::new(t);
    let r = s.get_column_profiles(&ColumnProfileRequest { column_index: 0, profiles: vec![ProfileKind::Histogram { num_bins: 0 }] }, &default_format_options());
    assert!(matches!(r[0], ProfileResult::Histogram(Err(ProfileError::NoBins))));
}

fn frequencies(s: &ViewSession, col: usize, limit: usize) -> FrequencyTable {
    let mut r = s.get_column_profiles(
        &ColumnProfileRequest { column_index: col, profiles: vec![ProfileKind::FrequencyTable { limit }] },
        &default_format_options(),
    );
    match r.pop() {
        Some(ProfileResult::FrequencyTable(Ok(f))) => f,
        other => panic!("unexpected {:?}", other),
    }
}

fn words_of(f: &FrequencyTable) -> Vec<String> {
    f.values
        .iter()
        .map(|v| match v {
            FormattedValue::Text(t) => t.clone(),
            FormattedValue::Special(c) => panic!("special {:?}", c),
        })
        .collect()
}

#[test]
fn test_frequency_table() {
    // The i-th letter of a..j appears 10 - i times.
    let mut cells = Vec::new();
    let letters = "abcdefghij";
    for (i, l) in letters.chars().enumerate() {
        for _ in 0..(10 - i) {
            cells.push(text(&l.to_string()));
        }
    }
    let s = ViewSession::new(table(vec![("x", ColumnKind::Text, cells)]));
    let f = frequencies(&s, 0, 5);
    assert_eq!(words_of(&f), vec!["a", "b", "c", "d", "e"]);
    assert_eq!(f.counts, vec![10, 9, 8, 7, 6]);
    assert_eq!(f.other_count, 5 + 4 + 3 + 2 + 1);
}

#[test]
fn frequency_ties_keep_first_appearance() {
    let cells = vec![
        text("pear"),
        text("fig"),
        CellValue::Missing,
        text("fig"),
        text("kiwi"),
        text("pear"),
        text("plum"),
        CellValue::Missing,
        CellValue::Missing,
    ];
    let s = ViewSession::new(table(vec![("x", ColumnKind::Text, cells)]));
    let f = frequencies(&s, 0, 3);
    assert_eq!(words_of(&f), vec!["pear", "fig", "kiwi"]);
    assert_eq!(f.counts, vec![2, 2, 1]);
    assert_eq!(f.first_positions, vec![0, 1, 4]);
    assert_eq!(f.other_count, 1);
    let all = frequencies(&s, 0, 10);
    assert_eq!(all.counts.len(), 4);
    assert_eq!(all.other_count, 0);
    let none = frequencies(&s, 0, 0);
    assert_eq!(none.counts.len(), 0);
    assert_eq!(none.other_count, 6);
}

#[test]
fn frequency_of_missing_column_is_an_error() {
    let s = ViewSession::new(table(vec![("x", ColumnKind::Number, vec![num(1)])]));
    let r = s.get_column_profiles(
        &ColumnProfileRequest { column_index: 3, profiles: vec![ProfileKind::FrequencyTable { limit: 2 }] },
        &default_format_options(),
    );
    assert!(matches!(r[0], ProfileResult::FrequencyTable(Err(ProfileError::ColumnMissing))));
}
