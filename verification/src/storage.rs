//! Names of uploaded and generated files: sanitising, validation, identifiers
//! and locations.
use vstd::prelude::*;
use regex::Regex;
use uuid::Uuid;

use crate::config::Config;
use crate::output_index::FileAge;
use crate::text::{chars_of, push_char, string_of};

verus! {

/// Characters kept in a sanitised file name.
pub open spec fn is_name_char(c: char) -> bool {
    ||| ('a' <= c && c <= 'z')
    ||| ('A' <= c && c <= 'Z')
    ||| ('0' <= c && c <= '9')
    ||| c == '_'
    ||| c == '.'
    ||| c == '-'
}

pub fn is_name_char_exec(c: char) -> (b: bool)
    ensures
        b == is_name_char(c),
{
    ('a' <= c && c <= 'z') || ('A' <= c && c <= 'Z') || ('0' <= c && c <= '9') || c == '_' || c == '.' || c == '-'
}

/// Index just after the last `/` before `end` (0 when there is none).
pub open spec fn piece_start(s: Seq<char>, end: int) -> int
    decreases end,
{
    if end <= 0 {
        0
    } else if s[end - 1] == '/' {
        end
    } else {
        piece_start(s, end - 1)
    }
}

/// Final component of the path `s[..end]`: the last `/`-separated piece that
/// is neither empty nor `.`; `None` when there is no such piece or it is `..`
/// (what `Path::file_name` returns on systems whose separator is `/`).
pub open spec fn file_name_at(s: Seq<char>, end: int) -> Option<Seq<char>>
    decreases end,
{
    if end <= 0 || end > s.len() {
        None
    } else {
        let st = piece_start(s, end);
        let p = s.subrange(st, end);
        if p.len() == 0 || p == seq!['.'] {
            if st == 0 {
                None
            } else {
                proof {
                    lemma_piece_start(s, end);
                }
                file_name_at(s, st - 1)
            }
        } else if p == seq!['.', '.'] {
            None
        } else {
            Some(p)
        }
    }
}

/// `s` with spaces turned into `_` and every other character that is not an
/// ASCII letter, digit, `_`, `.` or `-` removed.
pub open spec fn clean_name(s: Seq<char>) -> Seq<char>
    decreases s.len(),
{
    if s.len() == 0 {
        s
    } else {
        let c = if s.last() == ' ' { '_' } else { s.last() };
        if is_name_char(c) {
            clean_name(s.drop_last()).push(c)
        } else {
            clean_name(s.drop_last())
        }
    }
}

/// The sanitised form of an uploaded file's name: its final path component,
/// cleaned.
pub open spec fn sanitize_spec(name: Seq<char>) -> Seq<char> {
    match file_name_at(name, name.len() as int) {
        Some(base) => clean_name(base),
        None => Seq::empty(),
    }
}

/// A cleaned name holds only name characters.
pub proof fn lemma_clean_name_chars(s: Seq<char>)
    ensures
        forall|i: int| 0 <= i < clean_name(s).len() ==> #[trigger] is_name_char(clean_name(s)[i]),
    decreases s.len(),
{
    if s.len() > 0 {
        lemma_clean_name_chars(s.drop_last());
        let p = clean_name(s.drop_last());
        let c = if s.last() == ' ' { '_' } else { s.last() };
        if is_name_char(c) {
            assert forall|i: int| 0 <= i < clean_name(s).len() implies #[trigger] is_name_char(clean_name(s)[i]) by {
                if i < p.len() {
                    assert(clean_name(s)[i] == p[i]);
                }
            }
        }
    }
}

/// A sanitised name holds only ASCII letters, digits, `_`, `.` and `-`: no
/// `/`, backslash or space.
pub proof fn lemma_sanitized_chars(name: Seq<char>)
    ensures
        forall|i: int| 0 <= i < sanitize_spec(name).len() ==> #[trigger] is_name_char(sanitize_spec(name)[i]),
        forall|i: int|
            0 <= i < sanitize_spec(name).len() ==> sanitize_spec(name)[i] != '/' && sanitize_spec(name)[i] != '\\'
                && sanitize_spec(name)[i] != ' ',
{
    match file_name_at(name, name.len() as int) {
        Some(base) => lemma_clean_name_chars(base),
        None => {},
    }
    assert forall|i: int| 0 <= i < sanitize_spec(name).len() implies sanitize_spec(name)[i] != '/' && sanitize_spec(
        name,
    )[i] != '\\' && sanitize_spec(name)[i] != ' ' by {
        assert(is_name_char(sanitize_spec(name)[i]));
    }
}

pub proof fn lemma_piece_start(s: Seq<char>, end: int)
    requires
        0 <= end <= s.len(),
    ensures
        0 <= piece_start(s, end) <= end,
        forall|j: int| piece_start(s, end) <= j < end ==> s[j] != '/',
        piece_start(s, end) > 0 ==> s[piece_start(s, end) - 1] == '/',
    decreases end,
{
    if end > 0 && s[end - 1] != '/' {
        lemma_piece_start(s, end - 1);
    }
}

pub(crate) fn file_name_chars(s: &Vec<char>) -> (r: Option<Vec<char>>)
    ensures
        r matches Some(v) ==> file_name_at(s@, s@.len() as int) == Some(v@),
        r is None ==> file_name_at(s@, s@.len() as int) is None,
{
    let mut end: usize = s.len();
    loop
        invariant
            end <= s@.len(),
            file_name_at(s@, s@.len() as int) == file_name_at(s@, end as int),
        decreases end,
    {
        if end == 0 {
            return None;
        }
        let mut st: usize = end;
        while st > 0 && s[st - 1] != '/'
            invariant
                st <= end,
                end <= s@.len(),
                piece_start(s@, end as int) == piece_start(s@, st as int),
            decreases st,
        {
            st = st - 1;
        }
        proof {
            lemma_piece_start(s@, end as int);
        }
        let len = end - st;
        let ghost p = s@.subrange(st as int, end as int);
        if len == 0 || (len == 1 && s[st] == '.') {
            if len == 1 {
                assert(p =~= seq!['.']);
            }
            if st == 0 {
                return None;
            }
            end = st - 1;
        } else if len == 2 && s[st] == '.' && s[st + 1] == '.' {
            assert(p =~= seq!['.', '.']);
            return None;
        } else {
            assert(p != seq!['.']) by {
                if p == seq!['.'] {
                    assert(p.len() == 1 && p[0] == '.');
                }
            }
            assert(p != seq!['.', '.']) by {
                if p == seq!['.', '.'] {
                    assert(p.len() == 2 && p[0] == '.' && p[1] == '.');
                }
            }
            let mut v: Vec<char> = Vec::new();
            let mut j: usize = st;
            while j < end
                invariant
                    st <= j <= end,
                    end <= s@.len(),
                    v@ == s@.subrange(st as int, j as int),
                decreases end - j,
            {
                v.push(s[j]);
                assert(s@.subrange(st as int, j + 1) =~= s@.subrange(st as int, j as int).push(s@[j as int]));
                j = j + 1;
            }
            return Some(v);
        }
    }
}

fn clean_chars(s: &Vec<char>) -> (r: Vec<char>)
    ensures
        r@ == clean_name(s@),
{
    let mut r: Vec<char> = Vec::new();
    let mut i: usize = 0;
    while i < s.len()
        invariant
            i <= s@.len(),
            r@ == clean_name(s@.take(i as int)),
        decreases s@.len() - i,
    {
        assert(s@.take(i + 1).drop_last() =~= s@.take(i as int));
        let c = if s[i] == ' ' { '_' } else { s[i] };
        if is_name_char_exec(c) {
            r.push(c);
        }
        i = i + 1;
    }
    assert(s@.take(s@.len() as int) =~= s@);
    r
}

/// Sanitises an uploaded file's name: keeps its final path component, turns
/// spaces into `_` and drops every character other than ASCII letters,
/// digits, `_`, `.` and `-`.
pub fn sanitize_filename(name: &str) -> (s: String)
    ensures
        s@ == sanitize_spec(name@),
{
    let cs = chars_of(name);
    match file_name_chars(&cs) {
        Some(base) => string_of(&clean_chars(&base)),
        None => String::new(),
    }
}

/// What matching `text` against the regular expression `pattern` with the
/// `regex` crate yields: `None` when the pattern does not compile.
pub uninterp spec fn regex_match(pattern: Seq<char>, text: Seq<char>) -> Option<bool>;

/// Compiles `pattern` with `regex::Regex::new` and tests `text` with
/// `Regex::is_match`. The result is the named `regex_match`; for the file
/// name pattern `^[A-Za-z0-9_.-]+$` the crate's syntax documentation gives
/// its meaning: a non-empty text made only of those characters.
#[verifier::external_body]
fn regex_is_match(pattern: &str, text: &str) -> (r: Option<bool>)
    ensures
        r == regex_match(pattern@, text@),
        pattern@ == "^[A-Za-z0-9_.-]+$"@ ==> r == Some(
            text@.len() > 0 && forall|i: int| 0 <= i < text@.len() ==> #[trigger] is_name_char(text@[i]),
        ),
{
    match Regex::new(pattern) {
        Ok(re) => Some(re.is_match(text)),
        Err(_) => None,
    }
}

/// The pattern that safe file and identifier names must match.
pub fn filename_pattern() -> (p: &'static str)
    ensures
        p@ == "^[A-Za-z0-9_.-]+$"@,
{
    "^[A-Za-z0-9_.-]+$"
}

/// A name made only of ASCII letters, digits, `_`, `.` and `-`, not empty and
/// not starting with a dot.
pub open spec fn safe_name_spec(name: Seq<char>) -> bool {
    &&& name.len() > 0
    &&& name[0] != '.'
    &&& forall|i: int| 0 <= i < name.len() ==> #[trigger] is_name_char(name[i])
}

/// Whitelisted file/identifier names: alphanumerics, `_ . -`, and no leading
/// dot (blocks hidden files such as the ownership sidecar).
pub fn is_safe_name(name: &str) -> (b: bool)
    ensures
        b == safe_name_spec(name@),
{
    let cs = chars_of(name);
    if cs.len() > 0 && cs[0] == '.' {
        return false;
    }
    match regex_is_match(filename_pattern(), name) {
        Some(m) => m,
        None => false,
    }
}

pub open spec fn is_lower_hex(c: char) -> bool {
    ('0' <= c && c <= '9') || ('a' <= c && c <= 'f')
}

/// A fresh random identifier: `Uuid::new_v4()` in its simple format, which
/// the crate documents as 32 lowercase hexadecimal digits. Nothing else is
/// promised of the value.
#[verifier::external_body]
pub(crate) fn new_uuid_simple() -> (s: String)
    ensures
        s@.len() == 32,
        forall|i: int| 0 <= i < 32 ==> #[trigger] is_lower_hex(s@[i]),
{
    Uuid::new_v4().simple().to_string()
}

pub open spec fn default_upload_name() -> Seq<char> {
    "upload.xlsx"@
}

/// A fresh upload identifier `<32 hex digits>_<safe name>` and the safe name,
/// which is the sanitised original name or `upload.xlsx` when that is empty.
pub fn new_upload_id(original_name: &str) -> (r: (String, String))
    ensures
        r.1@ == (if sanitize_spec(original_name@).len() == 0 {
            default_upload_name()
        } else {
            sanitize_spec(original_name@)
        }),
        r.0@.len() == 33 + r.1@.len(),
        forall|i: int| 0 <= i < 32 ==> #[trigger] is_lower_hex(r.0@[i]),
        r.0@[32] == '_',
        r.0@.subrange(33, r.0@.len() as int) == r.1@,
        forall|i: int| 0 <= i < r.1@.len() ==> #[trigger] is_name_char(r.1@[i]),
        safe_name_spec(r.0@),
{
    let mut safe = sanitize_filename(original_name);
    if safe.as_str().is_empty() {
        safe = String::from_str("upload.xlsx");
    }
    proof {
        if sanitize_spec(original_name@).len() == 0 {
            assert(safe@ == "upload.xlsx"@);
            reveal_strlit("upload.xlsx");
        } else {
            match file_name_at(original_name@, original_name@.len() as int) {
                Some(base) => lemma_clean_name_chars(base),
                None => {},
            }
        }
    }
    let mut id = new_uuid_simple();
    push_char(&mut id, '_');
    let ghost prefix = id@;
    id.append(safe.as_str());
    assert(id@.subrange(33, id@.len() as int) =~= safe@);
    assert forall|i: int| 0 <= i < id@.len() implies #[trigger] is_name_char(id@[i]) by {
        if i < 32 {
            assert(is_lower_hex(id@[i]));
        } else if i > 32 {
            assert(id@[i] == safe@[i - 33]);
        }
    }
    assert(is_lower_hex(id@[0]));
    (id, safe)
}

/// The path of `name` inside the directory `dir`, joined like `Path::join`
/// on systems whose separator is `/`.
pub open spec fn join_path(dir: Seq<char>, name: Seq<char>) -> Seq<char> {
    if name.len() > 0 && name[0] == '/' {
        name
    } else if dir.len() == 0 {
        name
    } else if dir.last() == '/' {
        dir + name
    } else {
        dir + seq!['/'] + name
    }
}

proof fn lemma_piece_start_at(s: Seq<char>, at: int, end: int)
    requires
        0 <= at <= end <= s.len(),
        at == 0 || s[at - 1] == '/',
        forall|i: int| at <= i < end ==> s[i] != '/',
    ensures
        piece_start(s, end) == at,
    decreases end,
{
    if end > at {
        lemma_piece_start_at(s, at, end - 1);
    }
}

/// A name without `/` that is neither empty, `.` nor `..`, joined to a
/// directory, is the final component of the joined path: the path names a
/// file directly inside the directory.
pub proof fn lemma_joined_file_name(dir: Seq<char>, name: Seq<char>)
    requires
        name.len() > 0,
        forall|i: int| 0 <= i < name.len() ==> name[i] != '/',
        name != seq!['.'],
        name != seq!['.', '.'],
    ensures
        file_name_at(join_path(dir, name), join_path(dir, name).len() as int) == Some(name),
{
    let p = join_path(dir, name);
    let at = p.len() - name.len();
    if dir.len() == 0 {
        assert(p == name);
    } else if dir.last() == '/' {
        assert(p == dir + name);
        assert(p[at - 1] == dir.last());
    } else {
        assert(p == dir + seq!['/'] + name);
    }
    assert(p.subrange(at, p.len() as int) =~= name);
    assert forall|i: int| at <= i < p.len() implies p[i] != '/' by {
        assert(p[i] == name[i - at]);
    }
    lemma_piece_start_at(p, at, p.len() as int);
}

pub fn join_path_exec(dir: &str, name: &str) -> (p: String)
    ensures
        p@ == join_path(dir@, name@),
{
    let d = chars_of(dir);
    let n = chars_of(name);
    if n.len() > 0 && n[0] == '/' {
        return string_of(&n);
    }
    let mut out = string_of(&d);
    if d.len() > 0 && d[d.len() - 1] != '/' {
        push_char(&mut out, '/');
    }
    out.append(name);
    proof {
        if d@.len() > 0 && d@.last() != '/' {
            assert(out@ =~= dir@ + seq!['/'] + name@);
        } else if d@.len() > 0 {
            assert(out@ =~= dir@ + name@);
        } else {
            assert(out@ =~= name@);
        }
    }
    out
}

/// Location of an upload inside the uploads directory.
pub fn upload_path(config: &Config, id: &str) -> (p: String)
    ensures
        p@ == join_path(config.upload_dir@, id@),
{
    join_path_exec(config.upload_dir.as_str(), id)
}

/// A regular file of this age is deleted by the periodic cleanup: only when
/// its age is known and has reached the time-to-live.
pub open spec fn expired(age: FileAge, ttl_seconds: u64) -> bool {
    age matches FileAge::Seconds(s) && s >= ttl_seconds
}

/// Whether the cleanup deletes a regular file of this age.
pub fn is_expired(age: FileAge, ttl_seconds: u64) -> (b: bool)
    ensures
        b == expired(age, ttl_seconds),
{
    match age {
        FileAge::Seconds(s) => s >= ttl_seconds,
        _ => false,
    }
}

} // verus!
