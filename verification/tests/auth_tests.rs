use ar_matcher::auth::{begin_auth, extract_bearer, finish_auth};
use ar_matcher::config::{Config, EnvValues};
use ar_matcher::turnstile::{begin_verify, finish_verify, TurnstileRequest, TurnstileStep};
use ar_matcher::upstream::UpstreamReply;

fn env() -> EnvValues {
    EnvValues {
        host: None,
        port: None,
        cors_origins: None,
        supabase_url: Some("https://proj.supabase.co/".into()),
        supabase_publishable_key: Some("pk".into()),
        supabase_anon_key: None,
        allowed_auth_emails: None,
        allowed_auth_domains: None,
        turnstile_secret_key: None,
        max_xlsx_uncompressed_bytes: None,
        max_xlsx_entry_bytes: None,
        max_xlsx_entries: None,
        cleanup_ttl_seconds: None,
        cleanup_interval_seconds: None,
        process_timeout_seconds: None,
        search_node_budget: None,
        max_result_rows: None,
    }
}

fn reply(status: u16, body: &str) -> UpstreamReply {
    UpstreamReply::Replied { status, body: Some(body.to_string()) }
}

#[test]
fn bearer_tokens_are_read_case_insensitively() {
    assert_eq!(extract_bearer(Some("Bearer abc")), Some("abc".to_string()));
    assert_eq!(extract_bearer(Some("bEaReR   abc  ")), Some("abc".to_string()));
    assert_eq!(extract_bearer(Some("Bearer ")), None);
    assert_eq!(extract_bearer(Some("Basic abc")), None);
    assert_eq!(extract_bearer(Some("Bearer")), None);
    assert_eq!(extract_bearer(None), None);
}

#[test]
fn login_request_targets_supabase_user_endpoint() {
    let c = Config::from_env(&env(), ".");
    let req = begin_auth(Some("Bearer tok"), &c).unwrap();
    assert_eq!(req.url, "https://proj.supabase.co/auth/v1/user");
    assert_eq!(req.apikey, "pk");
    assert_eq!(req.authorization, "Bearer tok");

    let err = begin_auth(None, &c).unwrap_err();
    assert_eq!((err.status, err.detail.as_str()), (401, "Login diperlukan"));

    let mut e = env();
    e.supabase_url = None;
    let err = begin_auth(Some("Bearer tok"), &Config::from_env(&e, ".")).unwrap_err();
    assert_eq!((err.status, err.detail.as_str()), (503, "Supabase Auth belum dikonfigurasi"));
    // Until Supabase Auth is configured, even a request without a token is
    // answered 503.
    let err = begin_auth(None, &Config::from_env(&e, ".")).unwrap_err();
    assert_eq!((err.status, err.detail.as_str()), (503, "Supabase Auth belum dikonfigurasi"));
}

#[test]
fn supabase_replies_decide_the_login() {
    let c = Config::from_env(&env(), ".");
    let user = finish_auth(&reply(200, r#"{"email":"  Fin@Vanila.ID "}"#), &c).unwrap();
    assert_eq!(user.email, "fin@vanila.id");

    let err = finish_auth(&reply(401, "{}"), &c).unwrap_err();
    assert_eq!((err.status, err.detail.as_str()), (401, "Sesi login tidak valid"));
    let err = finish_auth(&reply(403, "{}"), &c).unwrap_err();
    assert_eq!(err.status, 401);
    let err = finish_auth(&reply(500, "{}"), &c).unwrap_err();
    assert_eq!((err.status, err.detail.as_str()), (503, "Gagal memvalidasi login"));
    let err = finish_auth(&UpstreamReply::Unreachable, &c).unwrap_err();
    assert_eq!(err.status, 503);
    let err = finish_auth(&reply(200, "not json"), &c).unwrap_err();
    assert_eq!(err.status, 503);
    let user = finish_auth(&reply(200, r#"{"id":1}"#), &c).unwrap();
    assert_eq!(user.email, "");
}

#[test]
fn allow_lists_restrict_logins() {
    let mut e = env();
    e.allowed_auth_emails = Some("boss@vanila.id".into());
    let c = Config::from_env(&e, ".");
    assert!(finish_auth(&reply(200, r#"{"email":"Boss@vanila.id"}"#), &c).is_ok());
    let err = finish_auth(&reply(200, r#"{"email":"x@vanila.id"}"#), &c).unwrap_err();
    assert_eq!((err.status, err.detail.as_str()), (403, "Email tidak diizinkan"));

    let mut e = env();
    e.allowed_auth_domains = Some("@vanila.id".into());
    let c = Config::from_env(&e, ".");
    assert!(finish_auth(&reply(200, r#"{"email":"a@b@vanila.id"}"#), &c).is_ok());
    let err = finish_auth(&reply(200, r#"{"email":"x@other.id"}"#), &c).unwrap_err();
    assert_eq!((err.status, err.detail.as_str()), (403, "Domain email tidak diizinkan"));
}

#[test]
fn turnstile_is_skipped_without_secret() {
    let c = Config::from_env(&env(), ".");
    match begin_verify(&c, &TurnstileRequest { token: "t".into() }) {
        TurnstileStep::Done(r) => {
            assert!(r.success);
            assert_eq!(r.skipped, Some(true));
        }
        TurnstileStep::Post(_) => panic!("no secret configured"),
    }
    let mut e = env();
    e.turnstile_secret_key = Some("s3".into());
    match begin_verify(&Config::from_env(&e, "."), &TurnstileRequest { token: "t".into() }) {
        TurnstileStep::Post(form) => {
            assert_eq!(form.secret, "s3");
            assert_eq!(form.response, "t");
        }
        TurnstileStep::Done(_) => panic!("secret configured"),
    }
}

#[test]
fn turnstile_replies_give_the_success_flag() {
    let r = finish_verify(&reply(200, r#"{"success":true}"#)).unwrap();
    assert!(r.success && r.skipped.is_none());
    assert!(!finish_verify(&reply(200, r#"{"success":"yes"}"#)).unwrap().success);
    assert!(!finish_verify(&reply(200, r#"{}"#)).unwrap().success);
    let err = finish_verify(&reply(200, "<html>")).unwrap_err();
    assert_eq!((err.status, err.detail.as_str()), (503, "Gagal memverifikasi Turnstile"));
    assert_eq!(finish_verify(&UpstreamReply::Unreachable).unwrap_err().status, 503);
}
