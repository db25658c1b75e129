use std::io::{Cursor, Write};

use ar_matcher::config::{Config, EnvValues};
use ar_matcher::xlsx_guard::{check_entries, validate_xlsx, GuardError};

const INVALID_MSG: &str = "File .xlsx tidak valid";
const TOO_COMPLEX_MSG: &str = "File Excel terlalu kompleks";
const TOO_BIG_MSG: &str = "File Excel terlalu besar";

fn env() -> EnvValues {
    EnvValues {
        host: None,
        port: None,
        cors_origins: None,
        supabase_url: None,
        supabase_publishable_key: None,
        supabase_anon_key: None,
        allowed_auth_emails: None,
        allowed_auth_domains: None,
        turnstile_secret_key: None,
        max_xlsx_uncompressed_bytes: None,
        max_xlsx_entry_bytes: None,
        max_xlsx_entries: None,
        cleanup_ttl_seconds: None,
        cleanup_interval_seconds: None,
        process_timeout_seconds: None,
        search_node_budget: None,
        max_result_rows: None,
    }
}

fn test_config() -> Config {
    Config::from_env(&env(), ".")
}

fn zip_bytes(entries: &[(&str, &[u8])]) -> Vec<u8> {
    let mut zip = zip::ZipWriter::new(Cursor::new(Vec::new()));
    let options =
        zip::write::SimpleFileOptions::default().compression_method(zip::CompressionMethod::Stored);
    for (name, content) in entries {
        zip.start_file(*name, options).unwrap();
        zip.write_all(content).unwrap();
    }
    zip.finish().unwrap().into_inner()
}

#[test]
fn rejects_non_zip_file() {
    let result = validate_xlsx(b"definitely not a zip".to_vec(), &test_config());
    let err = result.unwrap_err();
    assert_eq!(err.detail, INVALID_MSG);
    assert_eq!(err.status, 400);
}

#[test]
fn accepts_valid_minimal_zip() {
    let bytes = zip_bytes(&[("[Content_Types].xml", b"<Types/>"), ("xl/workbook.xml", b"<wb/>")]);
    assert!(validate_xlsx(bytes, &test_config()).is_ok());
}

#[test]
fn rejects_missing_content_types() {
    let bytes = zip_bytes(&[("xl/workbook.xml", b"<wb/>")]);
    let result = validate_xlsx(bytes, &test_config());
    assert_eq!(result.unwrap_err().detail, INVALID_MSG);
}

#[test]
fn rejects_traversal_entries() {
    let bytes = zip_bytes(&[("[Content_Types].xml", b"<Types/>"), ("../evil.xml", b"x")]);
    let result = validate_xlsx(bytes, &test_config());
    assert_eq!(result.unwrap_err().detail, INVALID_MSG);
}

#[test]
fn rejects_absolute_and_backslash_traversal() {
    let absolute = zip_bytes(&[("[Content_Types].xml", b"<Types/>"), ("/etc/x", b"x")]);
    assert_eq!(validate_xlsx(absolute, &test_config()).unwrap_err().detail, INVALID_MSG);
    let backslash = zip_bytes(&[("[Content_Types].xml", b"<Types/>"), ("a\\..\\b", b"x")]);
    assert_eq!(validate_xlsx(backslash, &test_config()).unwrap_err().detail, INVALID_MSG);
}

#[test]
fn rejects_too_many_entries() {
    let mut e = env();
    e.max_xlsx_entries = Some("1".into());
    let config = Config::from_env(&e, ".");
    let bytes = zip_bytes(&[("[Content_Types].xml", b"<Types/>"), ("xl/workbook.xml", b"<wb/>")]);
    assert_eq!(validate_xlsx(bytes, &config).unwrap_err().detail, TOO_COMPLEX_MSG);
}

#[test]
fn rejects_oversized_entries() {
    let mut e = env();
    e.max_xlsx_entry_bytes = Some("4".into());
    let config = Config::from_env(&e, ".");
    let bytes = zip_bytes(&[("[Content_Types].xml", b"<Types/>")]);
    assert_eq!(validate_xlsx(bytes, &config).unwrap_err().detail, TOO_BIG_MSG);

    let mut e = env();
    e.max_xlsx_uncompressed_bytes = Some("10".into());
    let config = Config::from_env(&e, ".");
    let bytes = zip_bytes(&[("[Content_Types].xml", b"<Types/>"), ("a", b"12345")]);
    assert_eq!(validate_xlsx(bytes, &config).unwrap_err().detail, TOO_BIG_MSG);
}

#[test]
fn entry_listing_verdicts() {
    let config = test_config();
    let ok = vec![Some(("[Content_Types].xml".to_string(), 8u64))];
    assert_eq!(check_entries(&ok, &config), Ok(()));
    let unreadable = vec![Some(("[Content_Types].xml".to_string(), 8u64)), None];
    assert_eq!(check_entries(&unreadable, &config), Err(GuardError::Invalid));
    let big = vec![Some(("a".to_string(), u64::MAX)), Some(("[Content_Types].xml".to_string(), 1u64))];
    assert_eq!(check_entries(&big, &config), Err(GuardError::TooBig));
}
