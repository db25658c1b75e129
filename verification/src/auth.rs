//! Login checks: the bearer token of a request, and the verdict on the
//! Supabase Auth reply about it.
use vstd::prelude::*;

use crate::cleaning::{trim, trim_chars};
use crate::config::{lowercase, to_lowercase, views, Config};
use crate::error::AppError;
use crate::text::{chars_of, same_text, string_of, sub_chars};
use crate::upstream::{json_field, json_member, JsonField, UpstreamReply};

verus! {

/// Result of a successful authentication check.
#[derive(Debug, Clone)]
pub struct AuthUser {
    pub email: String,
}

/// The request that asks Supabase Auth who holds a token.
#[derive(Debug)]
pub struct AuthRequest {
    pub url: String,
    pub apikey: String,
    pub authorization: String,
}

pub open spec fn ascii_lower(c: char) -> char {
    if 'A' <= c && c <= 'Z' {
        ((c as u8) + 32) as char
    } else {
        c
    }
}

/// `a` and `b` are equal once ASCII letters are lowercased.
pub open spec fn eq_ignore_ascii_case(a: Seq<char>, b: Seq<char>) -> bool {
    a.len() == b.len() && forall|i: int| 0 <= i < a.len() ==> ascii_lower(#[trigger] a[i]) == ascii_lower(b[i])
}

/// Index of the first `c` in `s`, or `s.len()` when there is none.
pub open spec fn first_index(s: Seq<char>, c: char) -> int
    decreases s.len(),
{
    if s.len() == 0 {
        0
    } else if s[0] == c {
        0
    } else {
        1 + first_index(s.drop_first(), c)
    }
}

/// The token of an `Authorization` header value: the scheme before the
/// first space must read `bearer` in any case, and the trimmed rest must
/// not be empty.
pub open spec fn bearer_token(header: Seq<char>) -> Option<Seq<char>> {
    let sp = first_index(header, ' ');
    if sp >= header.len() {
        None
    } else {
        let scheme = header.subrange(0, sp);
        let token = trim(header.subrange(sp + 1, header.len() as int));
        if eq_ignore_ascii_case(scheme, "bearer"@) && token.len() > 0 {
            Some(token)
        } else {
            None
        }
    }
}

proof fn lemma_first_index(s: Seq<char>, c: char)
    ensures
        0 <= first_index(s, c) <= s.len(),
        forall|j: int| 0 <= j < first_index(s, c) ==> s[j] != c,
        first_index(s, c) < s.len() ==> s[first_index(s, c)] == c,
    decreases s.len(),
{
    if s.len() > 0 && s[0] != c {
        lemma_first_index(s.drop_first(), c);
        assert forall|j: int| 0 <= j < first_index(s, c) implies s[j] != c by {
            if j > 0 {
                assert(s[j] == s.drop_first()[j - 1]);
            }
        }
    }
}

proof fn lemma_first_index_at(s: Seq<char>, c: char, k: int)
    requires
        0 <= k <= s.len(),
        forall|j: int| 0 <= j < k ==> s[j] != c,
        k < s.len() ==> s[k] == c,
    ensures
        first_index(s, c) == k,
{
    lemma_first_index(s, c);
}

fn lower_ascii(c: char) -> (r: char)
    ensures
        r == ascii_lower(c),
{
    if 'A' <= c && c <= 'Z' {
        ((c as u8) + 32) as char
    } else {
        c
    }
}

fn eq_ignore_case(a: &Vec<char>, b: &Vec<char>) -> (r: bool)
    ensures
        r == eq_ignore_ascii_case(a@, b@),
{
    if a.len() != b.len() {
        return false;
    }
    let mut i: usize = 0;
    while i < a.len()
        invariant
            i <= a@.len(),
            a@.len() == b@.len(),
            forall|j: int| 0 <= j < i ==> ascii_lower(#[trigger] a@[j]) == ascii_lower(b@[j]),
        decreases a@.len() - i,
    {
        if lower_ascii(a[i]) != lower_ascii(b[i]) {
            return false;
        }
        i = i + 1;
    }
    true
}

/// The bearer token of an `Authorization` header value, if it has one.
pub fn extract_bearer(header: Option<&str>) -> (r: Option<String>)
    ensures
        r matches Some(t) ==> header matches Some(h) && bearer_token(h@) == Some(t@),
        r is None ==> (header matches Some(h) ==> bearer_token(h@) is None),
{
    let h = match header {
        Some(h) => h,
        None => return None,
    };
    let cs = chars_of(h);
    let mut sp: usize = 0;
    while sp < cs.len() && cs[sp] != ' '
        invariant
            sp <= cs@.len(),
            forall|j: int| 0 <= j < sp ==> cs@[j] != ' ',
        decreases cs@.len() - sp,
    {
        sp = sp + 1;
    }
    proof {
        lemma_first_index_at(cs@, ' ', sp as int);
    }
    if sp >= cs.len() {
        return None;
    }
    let scheme = sub_chars(&cs, 0, sp);
    let token = trim_chars(&sub_chars(&cs, sp + 1, cs.len()));
    let bearer = chars_of("bearer");
    if eq_ignore_case(&scheme, &bearer) && token.len() > 0 {
        Some(string_of(&token))
    } else {
        None
    }
}

pub open spec fn login_required() -> Seq<char> {
    "Login diperlukan"@
}

pub open spec fn auth_missing() -> Seq<char> {
    "Supabase Auth belum dikonfigurasi"@
}

pub open spec fn login_check_failed() -> Seq<char> {
    "Gagal memvalidasi login"@
}

pub open spec fn session_invalid() -> Seq<char> {
    "Sesi login tidak valid"@
}

pub open spec fn email_refused() -> Seq<char> {
    "Email tidak diizinkan"@
}

pub open spec fn domain_refused() -> Seq<char> {
    "Domain email tidak diizinkan"@
}

/// The first step of a login check: refuses every request while Supabase
/// Auth is not configured (503), then a request without a bearer token
/// (401), and otherwise gives the request that asks Supabase Auth who holds
/// the token.
pub fn begin_auth(header: Option<&str>, config: &Config) -> (r: Result<AuthRequest, AppError>)
    ensures
        match r {
            Ok(req) => {
                &&& header matches Some(h) && bearer_token(h@) matches Some(t) && req.authorization@ == "Bearer "@ + t
                &&& config.supabase_url@.len() > 0 && config.supabase_publishable_key@.len() > 0
                &&& req.url@ == config.supabase_url@ + "/auth/v1/user"@
                &&& req.apikey@ == config.supabase_publishable_key@
            },
            Err(e) => if !(config.supabase_url@.len() > 0 && config.supabase_publishable_key@.len() > 0) {
                e.status == 503 && e.detail@ == auth_missing()
            } else {
                e.status == 401 && e.detail@ == login_required() && !(header matches Some(h) && bearer_token(
                    h@,
                ) is Some)
            },
        },
{
    if !config.auth_configured() {
        return Err(AppError::unavailable("Supabase Auth belum dikonfigurasi"));
    }
    let token = match extract_bearer(header) {
        Some(t) => t,
        None => return Err(AppError::unauthorized("Login diperlukan")),
    };
    let mut url = config.supabase_url.clone();
    url.append("/auth/v1/user");
    let mut authorization = String::from_str("Bearer ");
    authorization.append(token.as_str());
    Ok(AuthRequest { url, apikey: config.supabase_publishable_key.clone(), authorization })
}

/// The text after the last `c` of `s`; all of `s` when it holds no `c`.
pub open spec fn after_last(s: Seq<char>, c: char) -> Seq<char>
    decreases s.len(),
{
    if s.len() == 0 {
        s
    } else if s.last() == c {
        Seq::empty()
    } else {
        after_last(s.drop_last(), c).push(s.last())
    }
}

/// The login email that a Supabase Auth user object's `email` member gives:
/// its text, trimmed and lowercased; empty when it is not text.
pub open spec fn login_email(m: (int, Seq<char>, bool)) -> Seq<char> {
    lowercase(
        trim(
            if m.0 == 1 {
                m.1
            } else {
                Seq::empty()
            },
        ),
    )
}

/// The refusal, if any, of a login email under the allow lists: listed
/// emails first, then listed domains; an empty list allows everyone.
pub open spec fn allow_verdict(email: Seq<char>, emails: Seq<Seq<char>>, domains: Seq<Seq<char>>) -> Option<Seq<char>> {
    if emails.len() > 0 && !emails.contains(email) {
        Some(email_refused())
    } else if domains.len() > 0 && !domains.contains(after_last(email, '@')) {
        Some(domain_refused())
    } else {
        None
    }
}

fn contains_text(list: &Vec<String>, s: &str) -> (b: bool)
    ensures
        b == views(list@).contains(s@),
{
    let mut i: usize = 0;
    while i < list.len()
        invariant
            i <= list@.len(),
            forall|j: int| 0 <= j < i ==> list@[j]@ != s@,
        decreases list@.len() - i,
    {
        if same_text(list[i].as_str(), s) {
            assert(views(list@)[i as int] == s@);
            return true;
        }
        i = i + 1;
    }
    proof {
        if views(list@).contains(s@) {
            let j = choose|j: int| 0 <= j < views(list@).len() && views(list@)[j] == s@;
            assert(list@[j]@ == s@);
        }
    }
    false
}

fn after_last_char(s: &str, c: char) -> (r: String)
    ensures
        r@ == after_last(s@, c),
{
    let cs = chars_of(s);
    assert(cs@.subrange(0, cs@.len() as int) =~= cs@);
    assert(cs@ + cs@.subrange(cs@.len() as int, cs@.len() as int) =~= cs@);
    let mut start: usize = cs.len();
    while start > 0 && cs[start - 1] != c
        invariant
            start <= cs@.len(),
            after_last(cs@, c) == after_last(cs@.subrange(0, start as int), c) + cs@.subrange(start as int, cs@.len() as int),
        decreases start,
    {
        let ghost pre = cs@.subrange(0, start as int);
        assert(pre.drop_last() =~= cs@.subrange(0, start - 1));
        assert(cs@.subrange(start - 1, cs@.len() as int) =~= seq![cs@[start - 1]] + cs@.subrange(start as int, cs@.len() as int));
        assert(after_last(pre.drop_last(), c).push(pre.last()) + cs@.subrange(start as int, cs@.len() as int)
            =~= after_last(pre.drop_last(), c) + cs@.subrange(start - 1, cs@.len() as int));
        start = start - 1;
    }
    proof {
        let pre = cs@.subrange(0, start as int);
        if start == 0 {
            assert(pre =~= Seq::<char>::empty());
        }
        assert(after_last(pre, c) + cs@.subrange(start as int, cs@.len() as int) =~= cs@.subrange(start as int, cs@.len() as int));
    }
    string_of(&sub_chars(&cs, start, cs.len()))
}

/// The verdict on Supabase Auth's reply about a token: a failed request,
/// a non-success status or an unreadable body is a 503 (401 and 403 are an
/// invalid session, 401); then the user's email must pass the allow lists
/// (403 otherwise).
pub fn finish_auth(reply: &UpstreamReply, config: &Config) -> (r: Result<AuthUser, AppError>)
    ensures
        match *reply {
            UpstreamReply::Unreachable => r matches Err(e) && e.status == 503 && e.detail@ == login_check_failed(),
            UpstreamReply::Replied { status, body } => if status == 401 || status == 403 {
                r matches Err(e) && e.status == 401 && e.detail@ == session_invalid()
            } else if !(200 <= status <= 299) {
                r matches Err(e) && e.status == 503 && e.detail@ == login_check_failed()
            } else {
                match body {
                    None => r matches Err(e) && e.status == 503 && e.detail@ == login_check_failed(),
                    Some(b) => match json_member(b@, "email"@) {
                        None => r matches Err(e) && e.status == 503 && e.detail@ == login_check_failed(),
                        Some(m) => match allow_verdict(
                            login_email(m),
                            views(config.allowed_auth_emails@),
                            views(config.allowed_auth_domains@),
                        ) {
                            Some(msg) => r matches Err(e) && e.status == 403 && e.detail@ == msg,
                            None => r matches Ok(u) && u.email@ == login_email(m),
                        },
                    },
                }
            },
        },
{
    let (status, body) = match reply {
        UpstreamReply::Unreachable => return Err(AppError::unavailable("Gagal memvalidasi login")),
        UpstreamReply::Replied { status, body } => (*status, body),
    };
    if status == 401 || status == 403 {
        return Err(AppError::unauthorized("Sesi login tidak valid"));
    }
    if !(200 <= status && status <= 299) {
        return Err(AppError::unavailable("Gagal memvalidasi login"));
    }
    let text = match body {
        Some(t) => t,
        None => return Err(AppError::unavailable("Gagal memvalidasi login")),
    };
    let field = match json_field(text.as_str(), "email") {
        Some(f) => f,
        None => return Err(AppError::unavailable("Gagal memvalidasi login")),
    };
    let raw = match field {
        JsonField::Text(s) => s,
        _ => String::new(),
    };
    let trimmed = string_of(&trim_chars(&chars_of(raw.as_str())));
    let email = to_lowercase(trimmed.as_str());
    if config.allowed_auth_emails.len() > 0 && !contains_text(&config.allowed_auth_emails, email.as_str()) {
        return Err(AppError::forbidden("Email tidak diizinkan"));
    }
    if config.allowed_auth_domains.len() > 0 {
        let domain = after_last_char(email.as_str(), '@');
        if !contains_text(&config.allowed_auth_domains, domain.as_str()) {
            return Err(AppError::forbidden("Domain email tidak diizinkan"));
        }
    }
    Ok(AuthUser { email })
}

} // verus!
