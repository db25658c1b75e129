//! Service configuration, computed from the environment's settings.
use vstd::prelude::*;

use crate::cleaning::{parse_u64, parse_u64_spec, split_chars, split_on, trim, trim_chars, trimmed};
use crate::storage::{join_path, join_path_exec};
use crate::text::{chars_of, string_of};

verus! {

#[derive(Debug, Clone)]
pub struct Config {
    pub host: String,
    pub port: u16,
    pub cors_origins: Vec<String>,
    pub supabase_url: String,
    pub supabase_publishable_key: String,
    pub allowed_auth_emails: Vec<String>,
    pub allowed_auth_domains: Vec<String>,
    pub turnstile_secret_key: String,
    pub upload_dir: String,
    pub output_dir: String,
    pub max_upload_bytes: u64,
    pub max_xlsx_uncompressed_bytes: u64,
    pub max_xlsx_entry_bytes: u64,
    pub max_xlsx_entries: usize,
    pub cleanup_ttl_seconds: u64,
    pub cleanup_interval_seconds: u64,
    pub process_timeout_seconds: u64,
    /// Most search nodes one run may explore.
    pub search_node_budget: u64,
    /// Most result rows one run may produce.
    pub max_result_rows: usize,
}

/// The raw value of each environment variable the service reads; `None`
/// where the variable is unset (or not valid Unicode).
#[derive(Debug, Clone)]
pub struct EnvValues {
    pub host: Option<String>,
    pub port: Option<String>,
    pub cors_origins: Option<String>,
    pub supabase_url: Option<String>,
    pub supabase_publishable_key: Option<String>,
    pub supabase_anon_key: Option<String>,
    pub allowed_auth_emails: Option<String>,
    pub allowed_auth_domains: Option<String>,
    pub turnstile_secret_key: Option<String>,
    pub max_xlsx_uncompressed_bytes: Option<String>,
    pub max_xlsx_entry_bytes: Option<String>,
    pub max_xlsx_entries: Option<String>,
    pub cleanup_ttl_seconds: Option<String>,
    pub cleanup_interval_seconds: Option<String>,
    pub process_timeout_seconds: Option<String>,
    pub search_node_budget: Option<String>,
    pub max_result_rows: Option<String>,
}

/// What `str::to_lowercase` returns for the characters `s` (the Unicode
/// lowercase mapping).
pub uninterp spec fn lowercase(s: Seq<char>) -> Seq<char>;

/// `str::to_lowercase`. Its result is named by `lowercase`.
#[verifier::external_body]
pub(crate) fn to_lowercase(s: &str) -> (r: String)
    ensures
        r@ == lowercase(s@),
{
    s.to_lowercase()
}

/// The variable's value, or empty when it is unset.
pub open spec fn raw_setting(v: Option<String>) -> Seq<char> {
    match v {
        Some(s) => s@,
        None => Seq::empty(),
    }
}

/// The variable's value without surrounding whitespace; empty when unset.
pub open spec fn setting(v: Option<String>) -> Seq<char> {
    trim(raw_setting(v))
}

/// The trimmed value, or `default` when that is empty.
pub open spec fn setting_or(v: Option<String>, default: Seq<char>) -> Seq<char> {
    if setting(v).len() == 0 {
        default
    } else {
        setting(v)
    }
}

/// The trimmed value read as a `u64`, or `default` when it is unset or does
/// not parse.
pub open spec fn number_or(v: Option<String>, default: int) -> int {
    match v {
        Some(s) => match parse_u64_spec(trim(s@)) {
            Some(n) => n,
            None => default,
        },
        None => default,
    }
}

/// The trimmed value read as a `usize`, or `default` when it is unset or
/// does not parse.
pub open spec fn count_or(v: Option<String>, default: int) -> int {
    match v {
        Some(s) => match parse_u64_spec(trim(s@)) {
            Some(n) => if n <= usize::MAX {
                n
            } else {
                default
            },
            None => default,
        },
        None => default,
    }
}

/// The non-empty items of `items`, in order.
pub open spec fn nonempty(items: Seq<Seq<char>>) -> Seq<Seq<char>>
    decreases items.len(),
{
    if items.len() == 0 {
        Seq::empty()
    } else if items.last().len() > 0 {
        nonempty(items.drop_last()).push(items.last())
    } else {
        nonempty(items.drop_last())
    }
}

/// The comma-separated items of `raw`, trimmed and lowercased, empty ones
/// dropped.
pub open spec fn list_items(raw: Seq<char>) -> Seq<Seq<char>> {
    nonempty(split_on(raw, ',').map_values(|p: Seq<char>| lowercase(trim(p))))
}

/// The comma-separated items of `raw`, trimmed, empty ones dropped.
pub open spec fn origin_items(raw: Seq<char>) -> Seq<Seq<char>> {
    nonempty(split_on(raw, ',').map_values(|p: Seq<char>| trim(p)))
}

/// `s` without any leading `c`.
pub open spec fn strip_leading(s: Seq<char>, c: char) -> Seq<char>
    decreases s.len(),
{
    if s.len() > 0 && s[0] == c {
        strip_leading(s.drop_first(), c)
    } else {
        s
    }
}

/// `s` without any trailing `c`.
pub open spec fn strip_trailing(s: Seq<char>, c: char) -> Seq<char>
    decreases s.len(),
{
    if s.len() > 0 && s.last() == c {
        strip_trailing(s.drop_last(), c)
    } else {
        s
    }
}

pub open spec fn views(v: Seq<String>) -> Seq<Seq<char>> {
    v.map_values(|s: String| s@)
}

/// The origins allowed when `CORS_ORIGINS` is empty.
pub open spec fn default_origins() -> Seq<Seq<char>> {
    seq![
        "https://ar.vanila.id"@,
        "http://ar.vanila.id"@,
        "https://api-ar.vanila.id"@,
        "http://api-ar.vanila.id"@,
    ]
}

fn raw_of(v: &Option<String>) -> (s: String)
    ensures
        s@ == raw_setting(*v),
{
    match v {
        Some(s) => s.clone(),
        None => String::new(),
    }
}

fn env_string(v: &Option<String>) -> (s: String)
    ensures
        s@ == setting(*v),
{
    let raw = raw_of(v);
    trimmed(raw.as_str())
}

fn env_string_or(v: &Option<String>, default: &str) -> (s: String)
    ensures
        s@ == setting_or(*v, default@),
{
    let value = env_string(v);
    if value.as_str().is_empty() {
        String::from_str(default)
    } else {
        value
    }
}

fn env_u64(v: &Option<String>, default: u64) -> (n: u64)
    ensures
        n == number_or(*v, default as int),
{
    match v {
        Some(s) => {
            let t = trim_chars(&chars_of(s.as_str()));
            match parse_u64(&t) {
                Some(n) => n,
                None => default,
            }
        },
        None => default,
    }
}

fn env_usize(v: &Option<String>, default: usize) -> (n: usize)
    ensures
        n == count_or(*v, default as int),
{
    match v {
        Some(s) => {
            let t = trim_chars(&chars_of(s.as_str()));
            match parse_u64(&t) {
                Some(n) => if n <= usize::MAX as u64 {
                    n as usize
                } else {
                    default
                },
                None => default,
            }
        },
        None => default,
    }
}

/// Keeps the non-empty strings of `items`, in order.
fn keep_nonempty(items: Vec<String>) -> (r: Vec<String>)
    ensures
        views(r@) == nonempty(views(items@)),
{
    let mut r: Vec<String> = Vec::new();
    let mut i: usize = 0;
    while i < items.len()
        invariant
            i <= items@.len(),
            views(r@) == nonempty(views(items@).take(i as int)),
        decreases items@.len() - i,
    {
        let ghost before = views(items@).take(i as int);
        assert(views(items@).take(i + 1).drop_last() =~= before);
        assert(views(items@).take(i + 1).last() == items@[i as int]@);
        if !items[i].as_str().is_empty() {
            r.push(items[i].clone());
            assert(views(r@) =~= nonempty(before).push(items@[i as int]@));
        }
        i = i + 1;
    }
    assert(views(items@).take(items@.len() as int) =~= views(items@));
    r
}

/// Comma-separated list, trimmed and lowercased, empty items dropped.
pub fn split_list(raw: &str) -> (r: Vec<String>)
    ensures
        views(r@) == list_items(raw@),
{
    let pieces = split_chars(&chars_of(raw), ',');
    let ghost ps = pieces@.map_values(|p: Vec<char>| p@);
    let mut items: Vec<String> = Vec::new();
    let mut i: usize = 0;
    while i < pieces.len()
        invariant
            i <= pieces@.len(),
            ps == pieces@.map_values(|p: Vec<char>| p@),
            items@.len() == i,
            views(items@) == ps.take(i as int).map_values(|p: Seq<char>| lowercase(trim(p))),
        decreases pieces@.len() - i,
    {
        let ghost prev = views(items@);
        let t = string_of(&trim_chars(&pieces[i]));
        let lower = to_lowercase(t.as_str());
        items.push(lower);
        assert(ps[i as int] == pieces@[i as int]@);
        assert(views(items@) =~= prev.push(lowercase(trim(ps[i as int]))));
        assert(ps.take(i + 1).map_values(|p: Seq<char>| lowercase(trim(p))) =~= ps.take(i as int).map_values(
            |p: Seq<char>| lowercase(trim(p)),
        ).push(lowercase(trim(ps[i as int]))));
        assert(views(items@) =~= ps.take(i + 1).map_values(|p: Seq<char>| lowercase(trim(p))));
        i = i + 1;
    }
    assert(ps.take(pieces@.len() as int) =~= ps);
    keep_nonempty(items)
}

/// Comma-separated list, trimmed, empty items dropped.
fn split_origins(raw: &str) -> (r: Vec<String>)
    ensures
        views(r@) == origin_items(raw@),
{
    let pieces = split_chars(&chars_of(raw), ',');
    let ghost ps = pieces@.map_values(|p: Vec<char>| p@);
    let mut items: Vec<String> = Vec::new();
    let mut i: usize = 0;
    while i < pieces.len()
        invariant
            i <= pieces@.len(),
            ps == pieces@.map_values(|p: Vec<char>| p@),
            items@.len() == i,
            views(items@) == ps.take(i as int).map_values(|p: Seq<char>| trim(p)),
        decreases pieces@.len() - i,
    {
        let ghost prev = views(items@);
        items.push(string_of(&trim_chars(&pieces[i])));
        assert(ps[i as int] == pieces@[i as int]@);
        assert(views(items@) =~= prev.push(trim(ps[i as int])));
        assert(ps.take(i + 1).map_values(|p: Seq<char>| trim(p)) =~= ps.take(i as int).map_values(|p: Seq<char>| trim(p)).push(
            trim(ps[i as int]),
        ));
        assert(views(items@) =~= ps.take(i + 1).map_values(|p: Seq<char>| trim(p)));
        i = i + 1;
    }
    assert(ps.take(pieces@.len() as int) =~= ps);
    keep_nonempty(items)
}

fn strip_leading_char(s: &String, c: char) -> (r: String)
    ensures
        r@ == strip_leading(s@, c),
{
    let cs = chars_of(s.as_str());
    assert(cs@.subrange(0, cs@.len() as int) =~= cs@);
    let mut i: usize = 0;
    while i < cs.len() && cs[i] == c
        invariant
            i <= cs@.len(),
            strip_leading(cs@, c) == strip_leading(cs@.subrange(i as int, cs@.len() as int), c),
        decreases cs@.len() - i,
    {
        assert(cs@.subrange(i as int, cs@.len() as int).drop_first() =~= cs@.subrange(i + 1, cs@.len() as int));
        i = i + 1;
    }
    let mut out: Vec<char> = Vec::new();
    let mut j: usize = i;
    while j < cs.len()
        invariant
            i <= j <= cs@.len(),
            out@ == cs@.subrange(i as int, j as int),
        decreases cs@.len() - j,
    {
        out.push(cs[j]);
        assert(cs@.subrange(i as int, j + 1) =~= cs@.subrange(i as int, j as int).push(cs@[j as int]));
        j = j + 1;
    }
    string_of(&out)
}

fn strip_trailing_char(s: &String, c: char) -> (r: String)
    ensures
        r@ == strip_trailing(s@, c),
{
    let cs = chars_of(s.as_str());
    assert(cs@.subrange(0, cs@.len() as int) =~= cs@);
    let mut e: usize = cs.len();
    while e > 0 && cs[e - 1] == c
        invariant
            e <= cs@.len(),
            strip_trailing(cs@, c) == strip_trailing(cs@.subrange(0, e as int), c),
        decreases e,
    {
        assert(cs@.subrange(0, e as int).drop_last() =~= cs@.subrange(0, e - 1));
        e = e - 1;
    }
    let mut out: Vec<char> = Vec::new();
    let mut j: usize = 0;
    while j < e
        invariant
            j <= e <= cs@.len(),
            out@ == cs@.subrange(0, j as int),
        decreases e - j,
    {
        out.push(cs[j]);
        assert(cs@.subrange(0, j + 1) =~= cs@.subrange(0, j as int).push(cs@[j as int]));
        j = j + 1;
    }
    proof {
        assert(cs@.subrange(0, cs@.len() as int) =~= cs@);
    }
    string_of(&out)
}

fn default_origin_list() -> (r: Vec<String>)
    ensures
        views(r@) == default_origins(),
{
    let mut r: Vec<String> = Vec::new();
    r.push(String::from_str("https://ar.vanila.id"));
    r.push(String::from_str("http://ar.vanila.id"));
    r.push(String::from_str("https://api-ar.vanila.id"));
    r.push(String::from_str("http://api-ar.vanila.id"));
    assert(views(r@) =~= default_origins());
    r
}

impl Config {
    /// The configuration given by the environment's settings `env`, with
    /// the working directories under `base_dir`.
    pub fn from_env(env: &EnvValues, base_dir: &str) -> (c: Config)
        ensures
            c.host@ == setting_or(env.host, "0.0.0.0"@),
            c.port == number_or(env.port, 9001) % 65536,
            views(c.cors_origins@) == (if setting(env.cors_origins).len() == 0 {
                default_origins()
            } else {
                origin_items(setting(env.cors_origins))
            }),
            c.supabase_url@ == strip_trailing(setting(env.supabase_url), '/'),
            c.supabase_publishable_key@ == (if setting(env.supabase_publishable_key).len() == 0 {
                setting(env.supabase_anon_key)
            } else {
                setting(env.supabase_publishable_key)
            }),
            views(c.allowed_auth_emails@) == list_items(raw_setting(env.allowed_auth_emails)),
            views(c.allowed_auth_domains@) == list_items(raw_setting(env.allowed_auth_domains)).map_values(
                |d: Seq<char>| strip_leading(d, '@'),
            ),
            c.turnstile_secret_key@ == setting(env.turnstile_secret_key),
            c.upload_dir@ == join_path(base_dir@, "uploads"@),
            c.output_dir@ == join_path(base_dir@, "outputs"@),
            c.max_upload_bytes == 10 * 1024 * 1024,
            c.max_xlsx_uncompressed_bytes == number_or(env.max_xlsx_uncompressed_bytes, 104857600),
            c.max_xlsx_entry_bytes == number_or(env.max_xlsx_entry_bytes, 52428800),
            c.max_xlsx_entries == count_or(env.max_xlsx_entries, 1000),
            c.cleanup_ttl_seconds == number_or(env.cleanup_ttl_seconds, 3600),
            c.cleanup_interval_seconds == number_or(env.cleanup_interval_seconds, c.cleanup_ttl_seconds as int),
            c.process_timeout_seconds == number_or(env.process_timeout_seconds, 600),
            c.search_node_budget == number_or(env.search_node_budget, u64::MAX as int),
            c.max_result_rows == count_or(env.max_result_rows, usize::MAX as int),
    {
        let supabase_url = strip_trailing_char(&env_string(&env.supabase_url), '/');
        let mut supabase_key = env_string(&env.supabase_publishable_key);
        if supabase_key.as_str().is_empty() {
            supabase_key = env_string(&env.supabase_anon_key);
        }
        let cors_raw = env_string(&env.cors_origins);
        let cors_origins = if cors_raw.as_str().is_empty() {
            default_origin_list()
        } else {
            split_origins(cors_raw.as_str())
        };
        let listed = split_list(raw_of(&env.allowed_auth_domains).as_str());
        let mut domains: Vec<String> = Vec::new();
        let mut i: usize = 0;
        while i < listed.len()
            invariant
                i <= listed@.len(),
                domains@.len() == i,
                views(domains@) == views(listed@).take(i as int).map_values(|d: Seq<char>| strip_leading(d, '@')),
            decreases listed@.len() - i,
        {
            let ghost prev = views(domains@);
            domains.push(strip_leading_char(&listed[i], '@'));
            assert(views(domains@) =~= prev.push(strip_leading(views(listed@)[i as int], '@')));
            assert(views(listed@).take(i + 1).map_values(|d: Seq<char>| strip_leading(d, '@')) =~= views(listed@).take(
                i as int,
            ).map_values(|d: Seq<char>| strip_leading(d, '@')).push(strip_leading(views(listed@)[i as int], '@')));
            assert(views(domains@) =~= views(listed@).take(i + 1).map_values(|d: Seq<char>| strip_leading(d, '@')));
            i = i + 1;
        }
        assert(views(listed@).take(listed@.len() as int) =~= views(listed@));
        let ttl = env_u64(&env.cleanup_ttl_seconds, 3600);
        let port = env_u64(&env.port, 9001);
        Config {
            host: env_string_or(&env.host, "0.0.0.0"),
            port: (port % 65536) as u16,
            cors_origins,
            supabase_url,
            supabase_publishable_key: supabase_key,
            allowed_auth_emails: split_list(raw_of(&env.allowed_auth_emails).as_str()),
            allowed_auth_domains: domains,
            turnstile_secret_key: env_string(&env.turnstile_secret_key),
            upload_dir: join_path_exec(base_dir, "uploads"),
            output_dir: join_path_exec(base_dir, "outputs"),
            max_upload_bytes: 10 * 1024 * 1024,
            max_xlsx_uncompressed_bytes: env_u64(&env.max_xlsx_uncompressed_bytes, 100 * 1024 * 1024),
            max_xlsx_entry_bytes: env_u64(&env.max_xlsx_entry_bytes, 50 * 1024 * 1024),
            max_xlsx_entries: env_usize(&env.max_xlsx_entries, 1000),
            cleanup_ttl_seconds: ttl,
            cleanup_interval_seconds: env_u64(&env.cleanup_interval_seconds, ttl),
            process_timeout_seconds: env_u64(&env.process_timeout_seconds, 600),
            search_node_budget: env_u64(&env.search_node_budget, u64::MAX),
            max_result_rows: env_usize(&env.max_result_rows, usize::MAX),
        }
    }

    /// Supabase Auth has both a project URL and a publishable key.
    pub fn auth_configured(&self) -> (b: bool)
        ensures
            b == (self.supabase_url@.len() > 0 && self.supabase_publishable_key@.len() > 0),
    {
        !self.supabase_url.as_str().is_empty() && !self.supabase_publishable_key.as_str().is_empty()
    }

    /// A Turnstile secret key is set.
    pub fn turnstile_configured(&self) -> (b: bool)
        ensures
            b == (self.turnstile_secret_key@.len() > 0),
    {
        !self.turnstile_secret_key.as_str().is_empty()
    }
}

} // verus!
