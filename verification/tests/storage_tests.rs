use ar_matcher::config::{Config, EnvValues};
use ar_matcher::output_index::FileAge;
use ar_matcher::storage::{is_expired, is_safe_name, new_upload_id, sanitize_filename, upload_path};

#[test]
fn sanitize_keeps_safe_chars_only() {
    assert_eq!(sanitize_filename("Laporan Piutang 2024.xlsx"), "Laporan_Piutang_2024.xlsx");
    assert_eq!(sanitize_filename("../../etc/passwd"), "passwd");
    assert_eq!(sanitize_filename("réport.xlsx"), "rport.xlsx");
    assert_eq!(sanitize_filename(""), "");
}

#[test]
fn safe_name_validation() {
    assert!(is_safe_name("abc_123.xlsx"));
    assert!(!is_safe_name("../evil.xlsx"));
    assert!(!is_safe_name("with space.xlsx"));
    assert!(!is_safe_name(""));
}

#[test]
fn upload_id_format() {
    let (id, safe) = new_upload_id("My File.xlsx");
    assert!(id.ends_with("_My_File.xlsx"));
    assert_eq!(safe, "My_File.xlsx");
    assert!(is_safe_name(&id));
}

#[test]
fn sanitize_uses_final_path_component() {
    assert_eq!(sanitize_filename("dir/sub/"), "sub");
    assert_eq!(sanitize_filename("a/."), "a");
    assert_eq!(sanitize_filename("a/.."), "");
    assert_eq!(sanitize_filename("/"), "");
}

#[test]
fn hidden_names_are_not_safe() {
    assert!(!is_safe_name(".index.json"));
    assert!(is_safe_name("a.b-c_d"));
}

#[test]
fn unusable_names_fall_back_to_default() {
    let (id, safe) = new_upload_id("ééé");
    assert_eq!(safe, "upload.xlsx");
    assert_eq!(id.len(), 33 + "upload.xlsx".len());
    assert!(is_safe_name(&id));
}

fn config() -> Config {
    let env = EnvValues {
        host: None,
        port: None,
        cors_origins: None,
        supabase_url: None,
        supabase_publishable_key: None,
        supabase_anon_key: None,
        allowed_auth_emails: None,
        allowed_auth_domains: None,
        turnstile_secret_key: None,
        max_xlsx_uncompressed_bytes: None,
        max_xlsx_entry_bytes: None,
        max_xlsx_entries: None,
        cleanup_ttl_seconds: None,
        cleanup_interval_seconds: None,
        process_timeout_seconds: None,
        search_node_budget: None,
        max_result_rows: None,
    };
    Config::from_env(&env, "/srv/app")
}

#[test]
fn uploads_live_in_the_upload_dir() {
    assert_eq!(upload_path(&config(), "abc.xlsx"), "/srv/app/uploads/abc.xlsx");
}

#[test]
fn cleanup_deletes_only_files_past_ttl() {
    assert!(is_expired(FileAge::Seconds(3600), 3600));
    assert!(!is_expired(FileAge::Seconds(3599), 3600));
    assert!(!is_expired(FileAge::Missing, 3600));
    assert!(!is_expired(FileAge::Future, 3600));
}

#[test]
fn sanitized_names_hold_only_safe_chars() {
    for name in ["a b\\c/d e.xlsx", "..", "x/ y /z*?.xlsx", "über-Ä_1.XLSX", "a\\b"] {
        let s = sanitize_filename(name);
        assert!(s.chars().all(|c| c.is_ascii_alphanumeric() || c == '_' || c == '.' || c == '-'), "{s}");
    }
    assert_eq!(sanitize_filename("x/ y /z*?.xlsx"), "z.xlsx");
}
