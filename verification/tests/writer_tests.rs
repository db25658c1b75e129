use std::io::Cursor;
use std::path::Path;

use calamine::{Data, Reader, Xlsx};

use ar_matcher::writer::{
    build_output_path, commas, results_sheet, results_workbook, safe_excel_text, stamp_format, write_results, ResultRow,
};

#[test]
fn comma_formatting_matches_python() {
    assert_eq!(commas(1234567), "1,234,567");
    assert_eq!(commas(999), "999");
    assert_eq!(commas(1000), "1,000");
    assert_eq!(commas(100), "100");
}

#[test]
fn comma_formatting_of_negative_and_extreme_values() {
    assert_eq!(commas(-1234567), "-1,234,567");
    assert_eq!(commas(0), "0");
    assert_eq!(commas(-5), "-5");
    assert_eq!(commas(i64::MIN), "-9,223,372,036,854,775,808");
    assert_eq!(commas(i64::MAX), "9,223,372,036,854,775,807");
}

#[test]
fn safe_text_prefixes_formula_chars() {
    assert_eq!(safe_excel_text("=cmd"), "'=cmd");
    assert_eq!(safe_excel_text("-5"), "'-5");
    assert_eq!(safe_excel_text("INV-1"), "INV-1");
}

#[test]
fn safe_text_guards_every_formula_lead() {
    for lead in ["=", "+", "-", "@", "\t", "\r"] {
        let text = format!("{lead}x");
        assert_eq!(safe_excel_text(&text), format!("'{text}"));
    }
    assert_eq!(safe_excel_text(""), "");
    assert_eq!(safe_excel_text("'=x"), "'=x");
}

fn sample_row() -> ResultRow {
    ResultRow {
        target: "Rp3,000,000".into(),
        customer: "Toko A".into(),
        invoice_count: 2,
        invoices: "INV-001, INV-002".into(),
        dates: "05/01/2024, 05/01/2024".into(),
        amounts: "Rp1,000,000, Rp2,000,000".into(),
        total: 3_000_000,
    }
}

#[test]
fn result_workbook_is_a_zip_file() {
    let bytes = write_results(&vec![sample_row()]).expect("workbook");
    assert!(bytes.len() > 4);
    assert_eq!(&bytes[0..2], b"PK");
}

#[test]
fn result_sheet_refuses_overlong_text() {
    let mut row = sample_row();
    row.invoices = "x".repeat(40_000);
    assert!(results_sheet(&vec![row]).is_err());
    assert!(write_results(&vec![sample_row()]).is_ok());
}

#[test]
fn output_path_names_a_fresh_workbook() {
    let a = build_output_path("/data/outputs");
    let b = build_output_path("/data/outputs");
    assert!(a.starts_with("/data/outputs/hasil_kombinasi_invoice_"));
    assert!(a.ends_with(".xlsx"));
    assert_ne!(a, b);
    let id = &a[a.len() - 5 - 32..a.len() - 5];
    assert!(id.chars().all(|c| c.is_ascii_hexdigit() && !c.is_ascii_uppercase()));
}

#[test]
fn commas_removed_give_the_decimal_text() {
    for v in [0i64, 7, -7, 999, 1000, -1000, 123_456_789, i64::MIN, i64::MAX] {
        let s = commas(v);
        assert_eq!(s.replace(',', ""), v.to_string());
        let digits = s.trim_start_matches('-');
        let groups: Vec<&str> = digits.split(',').collect();
        assert!((1..=3).contains(&groups[0].len()));
        assert!(groups[1..].iter().all(|g| g.len() == 3));
    }
}

#[test]
fn result_workbook_holds_one_filled_sheet() {
    let mut wb = results_workbook(&vec![sample_row()]).expect("workbook");
    let bytes = wb.save_to_buffer().unwrap();
    let mut reader: Xlsx<_> = calamine::open_workbook_from_rs(Cursor::new(bytes)).unwrap();
    assert_eq!(reader.sheet_names().len(), 1);
    let sheet = reader.worksheet_range_at(0).unwrap().unwrap();
    let get = |r: u32, c: u32| -> String { sheet.get_value((r, c)).map(|d: &Data| d.to_string()).unwrap_or_default() };
    assert_eq!(get(0, 0), "Target");
    assert_eq!(get(0, 6), "Total");
    assert_eq!(get(1, 1), "Toko A");
    assert_eq!(get(1, 2), "2");
    assert_eq!(get(1, 3), "INV-001, INV-002");
    assert_eq!(get(1, 6), "Rp3,000,000");
    assert_eq!(sheet.height(), 2);

    let mut long = sample_row();
    long.customer = "x".repeat(40_000);
    assert!(results_workbook(&vec![long]).is_err());
}

#[test]
fn output_path_lies_directly_in_the_output_dir() {
    for dir in ["/data/outputs", "/data/outputs/", "outputs", ""] {
        let p = build_output_path(dir);
        let path = Path::new(&p);
        let name = path.file_name().unwrap().to_str().unwrap();
        assert!(name.starts_with("hasil_kombinasi_invoice_"));
        let stamp = &name["hasil_kombinasi_invoice_".len()..name.len() - ".xlsx".len() - 33];
        assert_eq!(stamp.len(), "ddmmYYYY_HHMMSS".len());
        assert!(stamp.chars().all(|c| c.is_ascii_digit() || c == '_'));
        let parent = path.parent().unwrap().to_str().unwrap();
        assert_eq!(parent, dir.trim_end_matches('/'));
    }
}

#[test]
fn result_file_stamps_use_day_month_year_then_time() {
    assert_eq!(stamp_format(), "%d%m%Y_%H%M%S");
}
