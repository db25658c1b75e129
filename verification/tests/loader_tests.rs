use ar_matcher::loader::{
    date_from_cell, format_date_label, load_grouped, parse_date_str, total_from_cell, CalDate, Cell, LoaderError,
};

fn text(s: &str) -> Cell {
    Cell::Text(s.to_string())
}

fn float(shown: &str, repr: &str) -> Cell {
    Cell::Float { shown: shown.to_string(), repr: repr.to_string() }
}

#[test]
fn total_parsing_replicates_pandas_quirks() {
    assert_eq!(total_from_cell(&float("1234567", "1234567.0")), Some(1234567));
    assert_eq!(total_from_cell(&Cell::Int(500)), Some(500));
    assert_eq!(total_from_cell(&text("1,234")), Some(1234));
    // Quirk kept by design: everything after the FIRST dot is discarded.
    assert_eq!(total_from_cell(&text("1.234.567")), Some(1));
    assert_eq!(total_from_cell(&text("Rp1.234")), None);
    assert_eq!(total_from_cell(&text("abc")), None);
    assert_eq!(total_from_cell(&Cell::Bool(true)), None);
    assert_eq!(total_from_cell(&Cell::Empty), None);
}

#[test]
fn date_formats_month_first_like_pandas_default() {
    assert_eq!(parse_date_str("2024-01-05"), Some(CalDate::new(2024, 1, 5)));
    assert_eq!(
        parse_date_str("01/02/2024"),
        Some(CalDate::new(2024, 1, 2)) // month-first
    );
    assert_eq!(parse_date_str("not a date"), None);
}

#[test]
fn excel_datetime_iso_cells_are_read_directly() {
    let date = date_from_cell(&Cell::DateTimeIso("2024-01-05T08:30:00".into()));
    assert_eq!(date, Some(CalDate::new(2024, 1, 5)));
}

#[test]
fn date_label_format_matches_python_strftime() {
    assert_eq!(format_date_label(CalDate::new(2024, 3, 7)), "07/03/2024");
}

#[test]
fn other_date_formats_are_read() {
    assert_eq!(parse_date_str("  2024/03/07 "), Some(CalDate::new(2024, 3, 7)));
    assert_eq!(parse_date_str("03-07-2024"), Some(CalDate::new(2024, 3, 7)));
    assert_eq!(parse_date_str("2024-03-07 10:11:12"), Some(CalDate::new(2024, 3, 7)));
    assert_eq!(parse_date_str("03/07/2024 10:11:12"), Some(CalDate::new(2024, 3, 7)));
    assert_eq!(parse_date_str("13/07/2024"), None);
    assert_eq!(date_from_cell(&Cell::Int(45000)), None);
    let dt = Cell::DateTime { shown: "2024-03-07 00:00:00".into(), date: Some(CalDate::new(2024, 3, 7)) };
    assert_eq!(date_from_cell(&dt), Some(CalDate::new(2024, 3, 7)));
}

#[test]
fn grouped_total_text_reads_back() {
    for v in [1_234_567i64, 999, 1000, -42_000, 0] {
        let written = ar_matcher::writer::commas(v);
        assert_eq!(total_from_cell(&Cell::Text(written)), Some(v));
    }
}

fn sheet() -> Vec<Vec<Cell>> {
    vec![
        vec![text("Laporan Piutang Januari")],
        vec![text("Nama Pelanggan"), text("No. Faktur"), text("Tgl. Faktur"), text("Total")],
        vec![text("Toko A"), text("INV-001"), text("05/01/2024"), Cell::Int(1_000_000)],
        vec![text("Toko B"), text("INV-004"), text("05/01/2024"), Cell::Int(750_000)],
        vec![text("Toko A"), text("INV-002"), text("2024-01-05"), text("2,000,000")],
        vec![text("  "), text("INV-009"), text("05/01/2024"), Cell::Int(10)],
        vec![text("Toko C"), text("nan"), text("05/01/2024"), Cell::Int(10)],
        vec![text("Toko C"), text("INV-010"), text("05/01/2024"), Cell::Int(0)],
    ]
}

#[test]
fn groups_follow_first_appearance() {
    let grouped = load_grouped(&sheet()).expect("grouped");
    let names: Vec<&str> = grouped.groups.iter().map(|(n, _)| n.as_str()).collect();
    assert_eq!(names, vec!["Toko A", "Toko B"]);
    let a = &grouped.groups[0].1;
    assert_eq!(a.len(), 2);
    assert_eq!(a[0].invoice_no, "INV-001");
    // "05/01/2024" reads month-first: the first of May.
    assert_eq!(a[0].date_label, "01/05/2024");
    assert_eq!(a[1].amount, 2_000_000);
    assert_eq!(a[1].date_label, "05/01/2024");
}

#[test]
fn loader_errors_name_the_problem() {
    let no_header = vec![vec![text("hello")]];
    assert!(matches!(load_grouped(&no_header), Err(LoaderError::HeaderNotFound)));

    let incomplete = vec![vec![text("Nama Pelanggan"), text("No. Faktur"), text("Total")]];
    assert!(matches!(load_grouped(&incomplete), Err(LoaderError::ColumnsIncomplete)));

    let empty = vec![
        vec![text("Nama Pelanggan"), text("No. Faktur"), text("Tgl. Faktur"), text("Total")],
        vec![text("Toko A"), text("INV-1"), text("bad date"), Cell::Int(5)],
    ];
    assert!(matches!(load_grouped(&empty), Err(LoaderError::EmptyAfterClean)));
}
