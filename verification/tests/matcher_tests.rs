use ar_matcher::engine::InvoiceRow;
use ar_matcher::loader::{load_grouped, Cell, GroupedData};
use ar_matcher::matcher::{package_run, rupiah, row_to_result, run_for_targets, MatcherError};

fn inv(no: &str, amount: i64) -> InvoiceRow {
    InvoiceRow { invoice_no: no.into(), date_label: "05/01/2024".into(), amount }
}

fn grouped() -> GroupedData {
    GroupedData {
        groups: vec![
            ("Toko A".to_string(), vec![inv("INV-001", 1_000_000), inv("INV-002", 2_000_000), inv("INV-003", 3_500_000)]),
            ("Toko B".to_string(), vec![inv("INV-004", 750_000), inv("INV-005", 4_250_000)]),
        ],
    }
}

#[test]
fn rupiah_labels() {
    assert_eq!(rupiah(3_000_000), "Rp3,000,000");
    assert_eq!(rupiah(-1500), "Rp-1,500");
}

#[test]
fn result_rows_list_the_invoices() {
    let g = grouped();
    let combo = ar_matcher::engine::Combo { indices: vec![0, 1], total: 3_000_000 };
    let row = row_to_result(&combo, &g.groups[0].0, rupiah(3_000_000), &g.groups[0].1);
    assert_eq!(row.target, "Rp3,000,000");
    assert_eq!(row.customer, "Toko A");
    assert_eq!(row.invoice_count, 2);
    assert_eq!(row.invoices, "INV-001, INV-002");
    assert_eq!(row.dates, "05/01/2024, 05/01/2024");
    assert_eq!(row.amounts, "Rp1,000,000, Rp2,000,000");
    assert_eq!(row.total, 3_000_000);
}

#[test]
fn run_finds_matches_across_groups() {
    let run = run_for_targets(&grouped(), &vec![3_000_000], 0, 5, 30, u64::MAX, usize::MAX).expect("run");
    assert!(!run.truncated);
    assert_eq!(run.rows.len(), 1);
    assert_eq!(run.rows[0].customer, "Toko A");
    assert_eq!(run.rows[0].invoices, "INV-001, INV-002");

    let run = run_for_targets(&grouped(), &vec![5_000_000, 4_250_000], 0, 5, 30, u64::MAX, usize::MAX).unwrap();
    let customers: Vec<(&str, &str)> = run.rows.iter().map(|r| (r.target.as_str(), r.customer.as_str())).collect();
    assert_eq!(
        customers,
        vec![("Rp5,000,000", "Toko B"), ("Rp4,250,000", "Toko B")]
    );
}

#[test]
fn run_stops_at_result_cap() {
    let run = run_for_targets(&grouped(), &vec![3_000_000, 4_250_000], 1_000_000, 5, 30, u64::MAX, 2).unwrap();
    assert!(run.truncated);
    assert!(run.rows.len() >= 2);
}

#[test]
fn run_reports_budget_exhaustion() {
    let result = run_for_targets(&grouped(), &vec![3_000_000], 0, 5, 30, 1, usize::MAX);
    assert!(matches!(result, Err(MatcherError::BudgetExceeded)));
}

#[test]
fn packaging_a_run() {
    let empty = run_for_targets(&grouped(), &vec![1], 0, 5, 30, u64::MAX, usize::MAX).unwrap();
    let prepared = package_run(empty, "/out").unwrap();
    assert!(prepared.outcome.output_file.is_none());
    assert_eq!(prepared.outcome.total_rows, 0);
    assert!(prepared.workbook.is_none());

    let run = run_for_targets(&grouped(), &vec![3_000_000], 0, 5, 30, u64::MAX, usize::MAX).unwrap();
    let prepared = package_run(run, "/out").unwrap();
    assert_eq!(prepared.outcome.total_rows, 1);
    let path = prepared.outcome.output_file.unwrap();
    assert!(path.starts_with("/out/hasil_kombinasi_invoice_") && path.ends_with(".xlsx"));
    assert!(prepared.workbook.unwrap().starts_with(b"PK"));
}

#[test]
fn loaded_sheet_runs_end_to_end() {
    let text = |s: &str| Cell::Text(s.to_string());
    let rows = vec![
        vec![text("Laporan Piutang Januari")],
        vec![text("Nama Pelanggan"), text("No. Faktur"), text("Tgl. Faktur"), text("Total")],
        vec![text("Toko A"), text("INV-001"), text("2024-01-05"), Cell::Int(1_000_000)],
        vec![text("Toko A"), text("INV-002"), text("2024-01-05"), Cell::Int(2_000_000)],
        vec![text("Toko A"), text("INV-003"), text("2024-01-05"), Cell::Int(3_500_000)],
        vec![text("Toko B"), text("INV-004"), text("2024-01-05"), Cell::Int(750_000)],
        vec![text("Toko B"), text("INV-005"), text("2024-01-05"), Cell::Int(4_250_000)],
    ];
    let grouped = load_grouped(&rows).unwrap();
    let run = run_for_targets(&grouped, &vec![3_000_000], 0, 5, 30, u64::MAX, usize::MAX).unwrap();
    assert_eq!(run.rows.len(), 1);
    assert_eq!(run.rows[0].target, "Rp3,000,000");
    assert_eq!(run.rows[0].customer, "Toko A");
    assert_eq!(run.rows[0].invoice_count, 2);
    assert_eq!(run.rows[0].invoices, "INV-001, INV-002"); // 1M + 2M = 3M exact
}

#[test]
fn run_without_targets_or_groups_finds_nothing() {
    let run = run_for_targets(&grouped(), &vec![], 0, 5, 30, u64::MAX, usize::MAX).unwrap();
    assert!(run.rows.is_empty());
    assert!(!run.truncated);
    let none = GroupedData { groups: vec![] };
    let run = run_for_targets(&none, &vec![3_000_000], 0, 5, 30, 1, 1).unwrap();
    assert!(run.rows.is_empty());
    assert!(!run.truncated);
}

#[test]
fn run_rows_come_target_by_target_then_group_by_group() {
    let run = run_for_targets(&grouped(), &vec![750_000, 3_000_000, 4_250_000], 0, 5, 30, u64::MAX, usize::MAX).unwrap();
    let order: Vec<(&str, &str, &str)> =
        run.rows.iter().map(|r| (r.target.as_str(), r.customer.as_str(), r.invoices.as_str())).collect();
    assert_eq!(
        order,
        vec![
            ("Rp750,000", "Toko B", "INV-004"),
            ("Rp3,000,000", "Toko A", "INV-001, INV-002"),
            ("Rp4,250,000", "Toko B", "INV-005"),
        ]
    );
}
