//! Cloudflare Turnstile verification: when no secret key is configured the
//! check is skipped so local development stays frictionless.
use vstd::prelude::*;

use crate::config::Config;
use crate::error::AppError;
use crate::upstream::{json_field, json_member, JsonField, UpstreamReply};

verus! {

/// Where Turnstile tokens are verified.
pub const SITEVERIFY_URL: &'static str = "https://challenges.cloudflare.com/turnstile/v0/siteverify";

#[derive(Debug, Clone)]
pub struct TurnstileRequest {
    pub token: String,
}

#[derive(Debug, Clone)]
pub struct TurnstileResponse {
    pub success: bool,
    /// `Some(true)` when the check was skipped.
    pub skipped: Option<bool>,
}

/// The form posted to the verification endpoint.
#[derive(Debug)]
pub struct SiteverifyForm {
    pub secret: String,
    pub response: String,
}

/// What a verification calls for: an answer at once, or a post of the form.
#[derive(Debug)]
pub enum TurnstileStep {
    Done(TurnstileResponse),
    Post(SiteverifyForm),
}

pub open spec fn turnstile_failed() -> Seq<char> {
    "Gagal memverifikasi Turnstile"@
}

/// The first step of verifying `body`: skipped (a success) without a
/// secret key, else a post of the secret and the token.
pub fn begin_verify(config: &Config, body: &TurnstileRequest) -> (r: TurnstileStep)
    ensures
        config.turnstile_secret_key@.len() == 0 ==> (r matches TurnstileStep::Done(d) && d.success && d.skipped == Some(
            true,
        )),
        config.turnstile_secret_key@.len() > 0 ==> (r matches TurnstileStep::Post(f) && f.secret@
            == config.turnstile_secret_key@ && f.response@ == body.token@),
{
    if !config.turnstile_configured() {
        return TurnstileStep::Done(TurnstileResponse { success: true, skipped: Some(true) });
    }
    TurnstileStep::Post(SiteverifyForm { secret: config.turnstile_secret_key.clone(), response: body.token.clone() })
}

/// The verdict on the verification endpoint's reply: a failed request or
/// an unreadable JSON body is a 503; otherwise the reply's `success` flag,
/// false when it is missing or not a flag.
pub fn finish_verify(reply: &UpstreamReply) -> (r: Result<TurnstileResponse, AppError>)
    ensures
        match *reply {
            UpstreamReply::Replied { status, body: Some(b) } => match json_member(b@, "success"@) {
                Some(m) => r matches Ok(d) && d.skipped is None && d.success == (m.0 == 2 && m.2),
                None => r matches Err(e) && e.status == 503 && e.detail@ == turnstile_failed(),
            },
            _ => r matches Err(e) && e.status == 503 && e.detail@ == turnstile_failed(),
        },
{
    let text = match reply {
        UpstreamReply::Replied { status: _, body: Some(b) } => b,
        _ => return Err(AppError::unavailable("Gagal memverifikasi Turnstile")),
    };
    match json_field(text.as_str(), "success") {
        Some(JsonField::Flag(b)) => Ok(TurnstileResponse { success: b, skipped: None }),
        Some(_) => Ok(TurnstileResponse { success: false, skipped: None }),
        None => Err(AppError::unavailable("Gagal memverifikasi Turnstile")),
    }
}

} // verus!
