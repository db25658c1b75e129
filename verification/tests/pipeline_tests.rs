use std::io::Cursor;

use calamine::{Data, Reader, Xlsx};

use ar_matcher::loader::{format_date_label, load_grouped, CalDate, Cell, LoaderError};
use ar_matcher::matcher::{package_run, run_for_targets, run_on_sheet, MatcherError};

/// Renders a float the way the Total column reads it: whole values keep a
/// trailing ".0".
fn float_text(f: f64) -> String {
    if !f.is_finite() {
        return format!("{f}");
    }
    if f == f.trunc() && f.abs() < 1e16 {
        format!("{f:.1}")
    } else {
        format!("{f}")
    }
}

fn to_cell(data: &Data) -> Cell {
    match data {
        Data::Empty => Cell::Empty,
        Data::String(s) => Cell::Text(s.clone()),
        Data::Int(i) => Cell::Int(*i),
        Data::Float(f) => Cell::Float { shown: format!("{data}"), repr: float_text(*f) },
        Data::Bool(b) => Cell::Bool(*b),
        Data::DateTime(_) => Cell::DateTime { shown: format!("{data}"), date: None },
        Data::DateTimeIso(s) => Cell::DateTimeIso(s.clone()),
        Data::DurationIso(s) => Cell::DurationIso(s.clone()),
        Data::Error(_) => Cell::Error(format!("{data}")),
    }
}

fn first_sheet(bytes: Vec<u8>) -> calamine::Range<Data> {
    let mut reader: Xlsx<_> = calamine::open_workbook_from_rs(Cursor::new(bytes)).unwrap();
    reader.worksheet_range_at(0).unwrap().unwrap()
}

/// End-to-end: build a synthetic .xlsx (same layout the users upload), run
/// the full pipeline, and verify the result workbook.
#[test]
fn end_to_end_synthetic_workbook() {
    let date = format_date_label(CalDate::new(2024, 1, 5));

    // An input workbook resembling the real AR report.
    let mut wb = rust_xlsxwriter::Workbook::new();
    let sheet = wb.add_worksheet();
    // Row 0 is noise so header detection must skip it.
    sheet.write(0, 0, "Laporan Piutang Januari").unwrap();
    for (col, title) in ["Nama Pelanggan", "No. Faktur", "Tgl. Faktur", "Total"].iter().enumerate() {
        sheet.write(1, col as u16, *title).unwrap();
    }
    let rows: [(&str, &str, i64); 5] = [
        ("Toko A", "INV-001", 1_000_000),
        ("Toko A", "INV-002", 2_000_000),
        ("Toko A", "INV-003", 3_500_000),
        ("Toko B", "INV-004", 750_000),
        ("Toko B", "INV-005", 4_250_000),
    ];
    for (i, (customer, invoice, amount)) in rows.iter().enumerate() {
        let r = (i + 2) as u32;
        sheet.write(r, 0, *customer).unwrap();
        sheet.write(r, 1, *invoice).unwrap();
        sheet.write(r, 2, date.as_str()).unwrap();
        sheet.write(r, 3, *amount).unwrap();
    }
    let input = wb.save_to_buffer().unwrap();

    let range = first_sheet(input);
    let cells: Vec<Vec<Cell>> = range.rows().map(|row| row.iter().map(to_cell).collect()).collect();
    let grouped = load_grouped(&cells).expect("sheet loads");
    let run = run_for_targets(&grouped, &vec![3_000_000], 0, 5, 30, u64::MAX, usize::MAX).expect("matcher should succeed");
    let prepared = package_run(run, "/tmp/out").expect("result file");

    assert_eq!(prepared.outcome.total_rows, 1);
    assert!(prepared.outcome.output_file.is_some());

    // Verify the produced workbook contents.
    let output = first_sheet(prepared.workbook.expect("workbook"));
    let get = |r: u32, c: u32| -> String { output.get_value((r, c)).map(|d| d.to_string()).unwrap_or_default() };
    assert_eq!(get(0, 0), "Target");
    assert_eq!(get(1, 0), "Rp3,000,000");
    assert_eq!(get(1, 1), "Toko A");
    assert_eq!(get(1, 2), "2");
    assert_eq!(get(1, 3), "INV-001, INV-002"); // 1M + 2M = 3M exact
    assert_eq!(get(1, 6), "Rp3,000,000");
}

#[test]
fn result_sheet_guards_formula_text() {
    let cells = vec![
        vec![
            Cell::Text("Nama Pelanggan".into()),
            Cell::Text("No. Faktur".into()),
            Cell::Text("Tgl. Faktur".into()),
            Cell::Text("Total".into()),
        ],
        vec![
            Cell::Text("=HYPERLINK(1)".into()),
            Cell::Text("@INV".into()),
            Cell::Text("2024-01-05".into()),
            Cell::Int(500),
        ],
    ];
    let grouped = load_grouped(&cells).unwrap();
    let run = run_for_targets(&grouped, &vec![500], 0, 5, 30, u64::MAX, usize::MAX).unwrap();
    let prepared = package_run(run, "/tmp/out").unwrap();
    let output = first_sheet(prepared.workbook.unwrap());
    let get = |r: u32, c: u32| -> String { output.get_value((r, c)).map(|d| d.to_string()).unwrap_or_default() };
    assert_eq!(get(1, 1), "'=HYPERLINK(1)");
    assert_eq!(get(1, 3), "'@INV");
    assert_eq!(get(0, 6), "Total");
}

#[test]
fn a_sheet_that_does_not_load_ends_the_run_before_any_search() {
    let no_header = vec![vec![Cell::Text("just a title".into())]];
    let r = run_on_sheet(&no_header, &vec![500], 0, 5, "/tmp/out", 30, 1, 1);
    assert!(matches!(r, Err(MatcherError::Loader(LoaderError::HeaderNotFound))));

    let sheet = vec![
        vec![
            Cell::Text("Nama Pelanggan".into()),
            Cell::Text("No. Faktur".into()),
            Cell::Text("Tgl. Faktur".into()),
            Cell::Text("Total".into()),
        ],
        vec![Cell::Text("Toko A".into()), Cell::Text("INV-1".into()), Cell::Text("2024-01-05".into()), Cell::Int(500)],
        vec![Cell::Text("Toko A".into()), Cell::Text("INV-2".into()), Cell::Text("2024-01-06".into()), Cell::Int(700)],
    ];
    let prepared = run_on_sheet(&sheet, &vec![1200], 0, 5, "/tmp/out", 30, u64::MAX, usize::MAX).unwrap();
    assert_eq!(prepared.outcome.total_rows, 1);
    let path = prepared.outcome.output_file.clone().unwrap();
    assert_eq!(std::path::Path::new(&path).parent().unwrap().to_str().unwrap(), "/tmp/out");
    let output = first_sheet(prepared.workbook.unwrap());
    let get = |r: u32, c: u32| -> String { output.get_value((r, c)).map(|d| d.to_string()).unwrap_or_default() };
    assert_eq!(get(1, 3), "INV-1, INV-2");

    let none = run_on_sheet(&sheet, &vec![], 0, 5, "/tmp/out", 30, u64::MAX, usize::MAX).unwrap();
    assert_eq!(none.outcome.total_rows, 0);
    assert!(none.outcome.output_file.is_none() && none.workbook.is_none());
}
