use ar_matcher::config::{split_list, Config, EnvValues};

fn empty_env() -> EnvValues {
    EnvValues {
        host: None,
        port: None,
        cors_origins: None,
        supabase_url: None,
        supabase_publishable_key: None,
        supabase_anon_key: None,
        allowed_auth_emails: None,
        allowed_auth_domains: None,
        turnstile_secret_key: None,
        max_xlsx_uncompressed_bytes: None,
        max_xlsx_entry_bytes: None,
        max_xlsx_entries: None,
        cleanup_ttl_seconds: None,
        cleanup_interval_seconds: None,
        process_timeout_seconds: None,
        search_node_budget: None,
        max_result_rows: None,
    }
}

#[test]
fn defaults_without_environment() {
    let c = Config::from_env(&empty_env(), "/app");
    assert_eq!(c.host, "0.0.0.0");
    assert_eq!(c.port, 9001);
    assert_eq!(
        c.cors_origins,
        vec![
            "https://ar.vanila.id".to_string(),
            "http://ar.vanila.id".to_string(),
            "https://api-ar.vanila.id".to_string(),
            "http://api-ar.vanila.id".to_string(),
        ]
    );
    assert_eq!(c.upload_dir, "/app/uploads");
    assert_eq!(c.output_dir, "/app/outputs");
    assert_eq!(c.max_upload_bytes, 10 * 1024 * 1024);
    assert_eq!(c.max_xlsx_uncompressed_bytes, 100 * 1024 * 1024);
    assert_eq!(c.max_xlsx_entry_bytes, 50 * 1024 * 1024);
    assert_eq!(c.max_xlsx_entries, 1000);
    assert_eq!(c.cleanup_ttl_seconds, 3600);
    assert_eq!(c.cleanup_interval_seconds, 3600);
    assert_eq!(c.process_timeout_seconds, 600);
    assert!(!c.auth_configured());
    assert!(!c.turnstile_configured());
    assert!(c.allowed_auth_emails.is_empty());
}

#[test]
fn settings_are_trimmed_and_parsed() {
    let mut env = empty_env();
    env.host = Some("  127.0.0.1 ".into());
    env.port = Some(" 8080 ".into());
    env.supabase_url = Some(" https://x.supabase.co// ".into());
    env.supabase_anon_key = Some("anon".into());
    env.cors_origins = Some(" https://a.example , ,https://b.example".into());
    env.allowed_auth_emails = Some(" Admin@Vanila.ID , ,b@x.id".into());
    env.allowed_auth_domains = Some("@Vanila.id, x.id".into());
    env.cleanup_ttl_seconds = Some("120".into());
    env.process_timeout_seconds = Some("soon".into());
    env.max_xlsx_entries = Some("+12".into());
    let c = Config::from_env(&env, "/app/");
    assert_eq!(c.host, "127.0.0.1");
    assert_eq!(c.port, 8080);
    assert_eq!(c.supabase_url, "https://x.supabase.co");
    assert_eq!(c.supabase_publishable_key, "anon");
    assert!(c.auth_configured());
    assert_eq!(c.cors_origins, vec!["https://a.example".to_string(), "https://b.example".to_string()]);
    assert_eq!(c.allowed_auth_emails, vec!["admin@vanila.id".to_string(), "b@x.id".to_string()]);
    assert_eq!(c.allowed_auth_domains, vec!["vanila.id".to_string(), "x.id".to_string()]);
    assert_eq!(c.cleanup_ttl_seconds, 120);
    assert_eq!(c.cleanup_interval_seconds, 120);
    assert_eq!(c.process_timeout_seconds, 600);
    assert_eq!(c.max_xlsx_entries, 12);
    assert_eq!(c.upload_dir, "/app/uploads");
}

#[test]
fn port_wraps_like_a_u16_cast() {
    let mut env = empty_env();
    env.port = Some("65537".into());
    assert_eq!(Config::from_env(&env, ".").port, 1);
}

#[test]
fn publishable_key_wins_over_anon_key() {
    let mut env = empty_env();
    env.supabase_url = Some("https://x".into());
    env.supabase_publishable_key = Some("pub".into());
    env.supabase_anon_key = Some("anon".into());
    env.turnstile_secret_key = Some(" secret ".into());
    let c = Config::from_env(&env, ".");
    assert_eq!(c.supabase_publishable_key, "pub");
    assert!(c.turnstile_configured());
    assert_eq!(c.turnstile_secret_key, "secret");
}

#[test]
fn list_items_are_trimmed_lowercased_and_nonempty() {
    assert_eq!(split_list(" A@B.c ,, d "), vec!["a@b.c".to_string(), "d".to_string()]);
    assert!(split_list("").is_empty());
    assert!(split_list(" , ").is_empty());
}
