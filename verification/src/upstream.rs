//! Replies of the outside services the API consults (Supabase Auth,
//! Cloudflare Turnstile), as the request handlers hand them over.
use vstd::prelude::*;

verus! {

/// How an outside service answered a request.
#[derive(Debug)]
pub enum UpstreamReply {
    /// The request could not be sent or no response arrived.
    Unreachable,
    /// A response arrived with this status; `body` is its text, `None` when
    /// reading it failed.
    Replied { status: u16, body: Option<String> },
}

/// One member of a JSON object, as far as the handlers read it.
#[derive(Debug)]
pub enum JsonField {
    /// The object has no such member (or the document is not an object).
    Absent,
    Text(String),
    Flag(bool),
    /// A number, `null`, an array or an object.
    Other,
}

/// A member as plain values: its kind (0 absent, 1 text, 2 flag, 3 other),
/// its text and its flag.
pub open spec fn field_view(f: JsonField) -> (int, Seq<char>, bool) {
    match f {
        JsonField::Absent => (0, Seq::empty(), false),
        JsonField::Text(s) => (1, s@, false),
        JsonField::Flag(b) => (2, Seq::empty(), b),
        JsonField::Other => (3, Seq::empty(), false),
    }
}

/// What parsing `body` as JSON and reading its member `key` yields, or
/// `None` when `body` is not JSON.
pub uninterp spec fn json_member(body: Seq<char>, key: Seq<char>) -> Option<(int, Seq<char>, bool)>;

/// `serde_json::from_str::<serde_json::Value>` of `body`, then
/// `Value::get(key)`, told apart by the member's kind. The result is named
/// by `json_member`.
#[verifier::external_body]
pub(crate) fn json_field(body: &str, key: &str) -> (r: Option<JsonField>)
    ensures
        r matches Some(f) ==> json_member(body@, key@) == Some(field_view(f)),
        r is None ==> json_member(body@, key@) is None,
{
    let value: serde_json::Value = serde_json::from_str(body).ok()?;
    Some(match value.get(key) {
        None => JsonField::Absent,
        Some(serde_json::Value::String(s)) => JsonField::Text(s.clone()),
        Some(serde_json::Value::Bool(b)) => JsonField::Flag(*b),
        Some(serde_json::Value::Null) => JsonField::Other,
        Some(serde_json::Value::Number(_)) => JsonField::Other,
        Some(serde_json::Value::Array(_)) => JsonField::Other,
        Some(serde_json::Value::Object(_)) => JsonField::Other,
    })
}

} // verus!
