use ar_matcher::config::{Config, EnvValues};
use ar_matcher::loader::LoaderError;
use ar_matcher::matcher::{MatcherError, RunOutcome};
use ar_matcher::output_index::OutputIndex;
use ar_matcher::routes::{
    authorize_download, check_upload_id, check_upload_name, check_upload_size, content_disposition, download_data,
    ends_with_xlsx, number_field, outcome_response, parse_targets, plan_process, windows_fit, InputSource,
    ProcessForm, XLSX_MIME,
};

fn config() -> Config {
    let env = EnvValues {
        host: None,
        port: None,
        cors_origins: None,
        supabase_url: None,
        supabase_publishable_key: None,
        supabase_anon_key: None,
        allowed_auth_emails: None,
        allowed_auth_domains: None,
        turnstile_secret_key: None,
        max_xlsx_uncompressed_bytes: None,
        max_xlsx_entry_bytes: None,
        max_xlsx_entries: None,
        cleanup_ttl_seconds: None,
        cleanup_interval_seconds: None,
        process_timeout_seconds: None,
        search_node_budget: None,
        max_result_rows: None,
    };
    Config::from_env(&env, "/srv")
}

fn form() -> ProcessForm {
    ProcessForm { upload_id: None, targets: Some("1000".into()), tolerance: None, max_invoices: None, has_file: true }
}

#[test]
fn targets_keep_digits_of_positive_pieces() {
    assert_eq!(parse_targets("Rp1.500.000, 2,000"), vec![1_500_000, 2]);
    assert_eq!(parse_targets("1.500.000;2000, abc, 0, -7"), vec![15_000_002_000, 7]);
    assert!(parse_targets("").is_empty());
    assert!(parse_targets("99999999999999999999").is_empty());
}

#[test]
fn number_fields_parse_trimmed_integers() {
    assert_eq!(number_field(" 250 "), Some(250));
    assert_eq!(number_field("-3"), Some(-3));
    assert_eq!(number_field("2.5"), None);
    assert_eq!(number_field(""), None);
}

#[test]
fn plan_applies_defaults_and_clamps() {
    let plan = plan_process(&form(), &config()).unwrap();
    assert_eq!(plan.targets, vec![1000]);
    assert_eq!(plan.tolerance, 100);
    assert_eq!(plan.max_invoices, 5);
    assert!(matches!(plan.input, InputSource::Fresh));

    let mut f = form();
    f.tolerance = Some(-5);
    f.max_invoices = Some(99);
    let plan = plan_process(&f, &config()).unwrap();
    assert_eq!(plan.tolerance, 0);
    assert_eq!(plan.max_invoices, 20);

    f.max_invoices = Some(-1);
    assert_eq!(plan_process(&f, &config()).unwrap().max_invoices, 1);
}

#[test]
fn plan_prefers_upload_id_and_refuses_bad_requests() {
    let mut f = form();
    f.upload_id = Some("abc.xlsx".into());
    let plan = plan_process(&f, &config()).unwrap();
    match plan.input {
        InputSource::Stored(path) => assert_eq!(path, "/srv/uploads/abc.xlsx"),
        InputSource::Fresh => panic!("upload id must win"),
    }

    f.upload_id = Some("../x".into());
    let err = plan_process(&f, &config()).unwrap_err();
    assert_eq!((err.status, err.detail.as_str()), (400, "Invalid upload id"));

    let mut f = form();
    f.has_file = false;
    let err = plan_process(&f, &config()).unwrap_err();
    assert_eq!((err.status, err.detail.as_str()), (400, "File or upload id must be provided"));

    let mut f = form();
    f.targets = Some("abc".into());
    let err = plan_process(&f, &config()).unwrap_err();
    assert_eq!((err.status, err.detail.as_str()), (400, "Target must be a positive number"));
    f.targets = None;
    assert_eq!(plan_process(&f, &config()).unwrap_err().detail, "Target must be a positive number");
}

#[test]
fn windows_must_fit_in_i64() {
    assert!(windows_fit(&vec![1000, 5], 100));
    assert!(!windows_fit(&vec![i64::MAX], 1));
}

#[test]
fn upload_checks() {
    assert!(ends_with_xlsx(Some("Report.XLSX")));
    assert!(!ends_with_xlsx(Some("report.xls")));
    assert!(!ends_with_xlsx(None));
    assert!(check_upload_name(Some("a.xlsx")).is_ok());
    assert_eq!(check_upload_name(Some("a.csv")).unwrap_err().detail, "Only .xlsx files are supported");
    assert!(check_upload_size(5, 5, 10).is_ok());
    let err = check_upload_size(6, 5, 10).unwrap_err();
    assert_eq!((err.status, err.detail.as_str()), (413, "File too large"));
    assert!(check_upload_id("abc_1.xlsx").is_ok());
    assert_eq!(check_upload_id(".hidden").unwrap_err().detail, "Invalid upload id");
}

#[test]
fn run_errors_become_answers() {
    let mut index = OutputIndex::new();
    let err = outcome_response(&mut index, "u", Err(MatcherError::Timeout)).unwrap_err();
    assert_eq!((err.status, err.detail.as_str()), (504, "Proses terlalu lama. Coba kurangi jumlah piutang atau target."));
    let err = outcome_response(&mut index, "u", Err(MatcherError::BudgetExceeded)).unwrap_err();
    assert_eq!(err.status, 400);
    assert!(err.detail.starts_with("Kombinasi terlalu banyak"));
    let err = outcome_response(&mut index, "u", Err(MatcherError::Loader(LoaderError::HeaderNotFound))).unwrap_err();
    assert_eq!(err.detail, "Header tidak ditemukan. Pastikan ada kolom 'Nama Pelanggan'.");
    let err = outcome_response(&mut index, "u", Err(MatcherError::Write("disk".into()))).unwrap_err();
    assert_eq!((err.status, err.detail.as_str()), (500, "Proses gagal. Coba lagi."));
    assert_eq!(index.len_of(), 0);
}

#[test]
fn found_results_are_recorded_for_their_owner() {
    let mut index = OutputIndex::new();
    let none = RunOutcome { output_file: None, total_rows: 0, truncated: true };
    let reply = outcome_response(&mut index, "u@x", Ok(none)).unwrap();
    assert!(!reply.found && reply.truncated && reply.download_url.is_none() && reply.file_name.is_none());

    let some = RunOutcome { output_file: Some("/srv/outputs/r.xlsx".into()), total_rows: 3, truncated: false };
    let reply = outcome_response(&mut index, "u@x", Ok(some)).unwrap();
    assert!(reply.found);
    assert_eq!(reply.total_rows, 3);
    assert_eq!(reply.file_name.as_deref(), Some("r.xlsx"));
    assert_eq!(reply.download_url.as_deref(), Some("/api/download/r.xlsx"));
    assert!(index.is_owner("r.xlsx", "u@x"));
}

#[test]
fn downloads_are_served_to_their_owner_only() {
    let mut index = OutputIndex::new();
    index.insert("r.xlsx", "u@x");
    let c = config();
    assert_eq!(authorize_download(&index, "r.xlsx", "u@x", &c).unwrap(), "/srv/outputs/r.xlsx");
    let err = authorize_download(&index, "r.xlsx", "v@x", &c).unwrap_err();
    assert_eq!((err.status, err.detail.as_str()), (404, "File not found"));
    let err = authorize_download(&index, "../r.xlsx", "u@x", &c).unwrap_err();
    assert_eq!((err.status, err.detail.as_str()), (400, "Invalid file name"));
}

#[test]
fn download_metadata() {
    assert_eq!(content_disposition("r.xlsx"), "attachment; filename=\"r.xlsx\"");
    let d = download_data("r.xlsx", &b"foobar".to_vec());
    assert_eq!(d.data, "Zm9vYmFy");
    assert_eq!(d.media_type, XLSX_MIME);
    assert_eq!(download_data("r", &b"f".to_vec()).data, "Zg==");
    assert_eq!(download_data("r", &b"fo".to_vec()).data, "Zm8=");
    assert_eq!(download_data("r", &vec![0xfb, 0xff]).data, "+/8=");
}
