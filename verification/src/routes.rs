//! Decisions of the HTTP handlers: reading the process form, answering a
//! finished run, and guarding uploads and downloads. The handlers in front
//! of these functions only move bytes and talk to the network.
use vstd::prelude::*;
use base64::engine::general_purpose::STANDARD as BASE64;
use base64::Engine;

use crate::cleaning::{parse_i64, parse_i64_spec, split_chars, split_on, trim, trim_chars};
use crate::config::{lowercase, to_lowercase, Config};
use crate::engine::window_fits;
use crate::error::AppError;
use crate::loader::LoaderError;
use crate::matcher::{MatcherError, RunOutcome};
use crate::output_index::OutputIndex;
use crate::storage::{file_name_at, file_name_chars, is_safe_name, join_path, join_path_exec, safe_name_spec, upload_path};
use crate::text::{chars_of, same_chars, string_of, sub_chars};

verus! {

pub const DEFAULT_TOLERANCE: i64 = 100;

pub const DEFAULT_MAX_INVOICES: usize = 5;

pub const ONLY_XLSX_MSG: &'static str = "Only .xlsx files are supported";

pub const XLSX_MIME: &'static str = "application/vnd.openxmlformats-officedocument.spreadsheetml.sheet";

// ---------------------------------------------------------------------------
// Targets and numbers of the process form
// ---------------------------------------------------------------------------

pub open spec fn is_ascii_digit(c: char) -> bool {
    '0' <= c && c <= '9'
}

/// The ASCII digits of `s`, in order.
pub open spec fn digits_only(s: Seq<char>) -> Seq<char>
    decreases s.len(),
{
    if s.len() == 0 {
        s
    } else if is_ascii_digit(s.last()) {
        digits_only(s.drop_last()).push(s.last())
    } else {
        digits_only(s.drop_last())
    }
}

/// The amount a comma-separated piece names: its digits read as an `i64`,
/// 0 when there are none or they overflow.
pub open spec fn piece_value(piece: Seq<char>) -> int {
    match parse_i64_spec(digits_only(piece)) {
        Some(v) => v,
        None => 0,
    }
}

/// The positive values of `vs`, in order.
pub open spec fn positives(vs: Seq<int>) -> Seq<int>
    decreases vs.len(),
{
    if vs.len() == 0 {
        vs
    } else if vs.last() > 0 {
        positives(vs.drop_last()).push(vs.last())
    } else {
        positives(vs.drop_last())
    }
}

/// The targets a comma-separated list names: each piece's digits, kept when
/// positive.
pub open spec fn targets_of(raw: Seq<char>) -> Seq<int> {
    positives(split_on(raw, ',').map_values(|p: Seq<char>| piece_value(p)))
}

fn digit_chars(s: &Vec<char>) -> (r: Vec<char>)
    ensures
        r@ == digits_only(s@),
{
    let mut r: Vec<char> = Vec::new();
    let mut i: usize = 0;
    while i < s.len()
        invariant
            i <= s@.len(),
            r@ == digits_only(s@.take(i as int)),
        decreases s@.len() - i,
    {
        assert(s@.take(i + 1).drop_last() =~= s@.take(i as int));
        if '0' <= s[i] && s[i] <= '9' {
            r.push(s[i]);
        }
        i = i + 1;
    }
    assert(s@.take(s@.len() as int) =~= s@);
    r
}

/// The positive amounts of a comma-separated target list; a piece counts by
/// its digits alone.
pub fn parse_targets(raw: &str) -> (r: Vec<i64>)
    ensures
        r@.map_values(|v: i64| v as int) == targets_of(raw@),
        forall|i: int| 0 <= i < r@.len() ==> #[trigger] r@[i] > 0,
{
    let pieces = split_chars(&chars_of(raw), ',');
    let ghost ps = pieces@.map_values(|p: Vec<char>| p@);
    let ghost vals = ps.map_values(|p: Seq<char>| piece_value(p));
    let mut r: Vec<i64> = Vec::new();
    let mut i: usize = 0;
    while i < pieces.len()
        invariant
            i <= pieces@.len(),
            ps == pieces@.map_values(|p: Vec<char>| p@),
            vals == ps.map_values(|p: Seq<char>| piece_value(p)),
            r@.map_values(|v: i64| v as int) == positives(vals.take(i as int)),
            forall|j: int| 0 <= j < r@.len() ==> #[trigger] r@[j] > 0,
        decreases pieces@.len() - i,
    {
        assert(ps[i as int] == pieces@[i as int]@);
        assert(vals.take(i + 1).drop_last() =~= vals.take(i as int));
        assert(vals.take(i + 1).last() == piece_value(ps[i as int]));
        let v: i64 = match parse_i64(&digit_chars(&pieces[i])) {
            Some(v) => v,
            None => 0,
        };
        if v > 0 {
            let ghost before = r@.map_values(|v: i64| v as int);
            let ghost prev = r@;
            r.push(v);
            assert(r@.drop_last() == prev);
            assert(r@.map_values(|v: i64| v as int) =~= before.push(v as int));
        }
        i = i + 1;
    }
    assert(vals.take(vals.len() as int) =~= vals);
    r
}

/// A number field of the form: its trimmed text read as an `i64`.
pub fn number_field(text: &str) -> (r: Option<i64>)
    ensures
        r matches Some(v) ==> parse_i64_spec(trim(text@)) == Some(v as int),
        r is None ==> parse_i64_spec(trim(text@)) is None,
{
    parse_i64(&trim_chars(&chars_of(text)))
}

/// The tolerance of a run: the form's, else 100; never negative.
pub open spec fn tolerance_of(t: Option<i64>) -> int {
    let v = match t {
        Some(v) => v as int,
        None => 100,
    };
    if v < 0 {
        0
    } else {
        v
    }
}

/// The combination size limit of a run: the form's, else 5; clamped to
/// `1..=20`.
pub open spec fn max_invoices_of(m: Option<i64>) -> int {
    let v = match m {
        Some(v) => v as int,
        None => 5,
    };
    if v < 1 {
        1
    } else if v > 20 {
        20
    } else {
        v
    }
}

// ---------------------------------------------------------------------------
// Planning a run
// ---------------------------------------------------------------------------

/// The fields of a process request.
#[derive(Debug, Clone)]
pub struct ProcessForm {
    pub upload_id: Option<String>,
    pub targets: Option<String>,
    pub tolerance: Option<i64>,
    pub max_invoices: Option<i64>,
    /// An `.xlsx` file came with the request.
    pub has_file: bool,
}

/// Which workbook a run reads.
#[derive(Debug)]
pub enum InputSource {
    /// An earlier upload, at this path.
    Stored(String),
    /// The file that came with the request.
    Fresh,
}

#[derive(Debug)]
pub struct ProcessPlan {
    pub targets: Vec<i64>,
    pub tolerance: i64,
    pub max_invoices: usize,
    pub input: InputSource,
}

pub open spec fn no_targets() -> Seq<char> {
    "Target must be a positive number"@
}

pub open spec fn invalid_upload_id() -> Seq<char> {
    "Invalid upload id"@
}

pub open spec fn no_input() -> Seq<char> {
    "File or upload id must be provided"@
}

/// The run a process request asks for. Refuses (400) a request without a
/// positive target, with an upload id that is not a safe name, or with
/// neither an upload id nor a file; an upload id wins over a file.
pub fn plan_process(form: &ProcessForm, config: &Config) -> (r: Result<ProcessPlan, AppError>)
    ensures
        ({
            let raw = match form.targets {
                Some(t) => t@,
                None => Seq::<char>::empty(),
            };
            match r {
                Ok(p) => {
                    &&& p.targets@.map_values(|v: i64| v as int) == targets_of(raw)
                    &&& targets_of(raw).len() > 0
                    &&& p.tolerance == tolerance_of(form.tolerance)
                    &&& p.max_invoices == max_invoices_of(form.max_invoices)
                    &&& match form.upload_id {
                        Some(id) => safe_name_spec(id@) && (p.input matches InputSource::Stored(path) && path@
                            == join_path(config.upload_dir@, id@)),
                        None => form.has_file && p.input is Fresh,
                    }
                },
                Err(e) => e.status == 400 && if targets_of(raw).len() == 0 {
                    e.detail@ == no_targets()
                } else {
                    match form.upload_id {
                        Some(id) => !safe_name_spec(id@) && e.detail@ == invalid_upload_id(),
                        None => !form.has_file && e.detail@ == no_input(),
                    }
                },
            }
        }),
{
    let raw: String = match &form.targets {
        Some(t) => t.clone(),
        None => String::new(),
    };
    let targets = parse_targets(raw.as_str());
    assert(targets@.map_values(|v: i64| v as int).len() == targets@.len());
    assert(targets_of(raw@).len() == targets@.len());
    if targets.len() == 0 {
        return Err(AppError::bad("Target must be a positive number"));
    }
    let t = match form.tolerance {
        Some(v) => v,
        None => DEFAULT_TOLERANCE,
    };
    let tolerance = if t < 0 { 0 } else { t };
    let m = match form.max_invoices {
        Some(v) => v,
        None => 5,
    };
    let max_invoices: usize = if m < 1 {
        1
    } else if m > 20 {
        20
    } else {
        m as usize
    };
    let input = match &form.upload_id {
        Some(id) => {
            if !is_safe_name(id.as_str()) {
                return Err(AppError::bad("Invalid upload id"));
            }
            InputSource::Stored(upload_path(config, id.as_str()))
        },
        None => {
            if !form.has_file {
                return Err(AppError::bad("File or upload id must be provided"));
            }
            InputSource::Fresh
        },
    };
    Ok(ProcessPlan { targets, tolerance, max_invoices, input })
}

/// Both ends of every target's tolerance window fit in an `i64`.
pub fn windows_fit(targets: &Vec<i64>, tolerance: i64) -> (b: bool)
    ensures
        b == forall|t: int| 0 <= t < targets@.len() ==> window_fits(#[trigger] targets@[t], tolerance),
{
    let mut i: usize = 0;
    while i < targets.len()
        invariant
            i <= targets@.len(),
            forall|t: int| 0 <= t < i ==> window_fits(#[trigger] targets@[t], tolerance),
        decreases targets@.len() - i,
    {
        let lo = targets[i] as i128 - tolerance as i128;
        let hi = targets[i] as i128 + tolerance as i128;
        if lo < i64::MIN as i128 || lo > i64::MAX as i128 || hi < i64::MIN as i128 || hi > i64::MAX as i128 {
            return false;
        }
        i = i + 1;
    }
    true
}

// ---------------------------------------------------------------------------
// Uploads
// ---------------------------------------------------------------------------

/// `name` ends with `.xlsx` in any case (judged on its lowercase form).
pub open spec fn xlsx_name(name: Option<Seq<char>>) -> bool {
    match name {
        Some(n) => {
            let l = lowercase(n);
            l.len() >= 5 && l.subrange(l.len() - 5, l.len() as int) == ".xlsx"@
        },
        None => false,
    }
}

/// Whether an uploaded file's name marks it as a workbook.
pub fn ends_with_xlsx(name: Option<&str>) -> (b: bool)
    ensures
        b == xlsx_name(
            match name {
                Some(n) => Some(n@),
                None => None,
            },
        ),
{
    match name {
        Some(n) => {
            let l = chars_of(to_lowercase(n).as_str());
            let ext = chars_of(".xlsx");
            proof {
                reveal_strlit(".xlsx");
            }
            if l.len() < 5 {
                return false;
            }
            let tail = sub_chars(&l, l.len() - 5, l.len());
            same_chars(&tail, &ext)
        },
        None => false,
    }
}

/// Refuses (400) an upload whose name does not end with `.xlsx`.
pub fn check_upload_name(name: Option<&str>) -> (r: Result<(), AppError>)
    ensures
        r is Ok <==> xlsx_name(
            match name {
                Some(n) => Some(n@),
                None => None,
            },
        ),
        r matches Err(e) ==> e.status == 400 && e.detail@ == ONLY_XLSX_MSG@,
{
    if ends_with_xlsx(name) {
        Ok(())
    } else {
        Err(AppError::bad(ONLY_XLSX_MSG))
    }
}

/// Refuses (413) an upload that would grow past `max_bytes` with the next
/// chunk.
pub fn check_upload_size(received: usize, chunk: usize, max_bytes: u64) -> (r: Result<(), AppError>)
    ensures
        r is Ok <==> received + chunk <= max_bytes,
        r matches Err(e) ==> e.status == 413 && e.detail@ == "File too large"@,
{
    if received as u128 + chunk as u128 > max_bytes as u128 {
        Err(AppError::too_large("File too large"))
    } else {
        Ok(())
    }
}

/// Refuses (400) an upload id that is not a safe name.
pub fn check_upload_id(id: &str) -> (r: Result<(), AppError>)
    ensures
        r is Ok <==> safe_name_spec(id@),
        r matches Err(e) ==> e.status == 400 && e.detail@ == invalid_upload_id(),
{
    if is_safe_name(id) {
        Ok(())
    } else {
        Err(AppError::bad("Invalid upload id"))
    }
}

// ---------------------------------------------------------------------------
// Answering a run
// ---------------------------------------------------------------------------

pub open spec fn loader_message(e: LoaderError) -> Seq<char> {
    match e {
        LoaderError::ReadFailed => "Gagal membaca file Excel. Pastikan file .xlsx valid dan tidak rusak."@,
        LoaderError::HeaderNotFound => "Header tidak ditemukan. Pastikan ada kolom 'Nama Pelanggan'."@,
        LoaderError::ColumnsIncomplete =>
            "Kolom penting tidak lengkap. Wajib ada: 'Nama Pelanggan', 'No. Faktur', 'Tgl. Faktur', 'Total'."@,
        LoaderError::EmptyAfterClean =>
            "Data kosong setelah dibersihkan. Pastikan kolom Total berisi angka dan tanggal faktur valid."@,
    }
}

/// The message shown when the workbook cannot be read.
pub fn loader_detail(err: LoaderError) -> (s: &'static str)
    ensures
        s@ == loader_message(err),
{
    match err {
        LoaderError::ReadFailed => "Gagal membaca file Excel. Pastikan file .xlsx valid dan tidak rusak.",
        LoaderError::HeaderNotFound => "Header tidak ditemukan. Pastikan ada kolom 'Nama Pelanggan'.",
        LoaderError::ColumnsIncomplete =>
            "Kolom penting tidak lengkap. Wajib ada: 'Nama Pelanggan', 'No. Faktur', 'Tgl. Faktur', 'Total'.",
        LoaderError::EmptyAfterClean =>
            "Data kosong setelah dibersihkan. Pastikan kolom Total berisi angka dan tanggal faktur valid.",
    }
}

/// The answer to a process request.
#[derive(Debug)]
pub struct ProcessReply {
    pub found: bool,
    pub total_rows: usize,
    pub download_url: Option<String>,
    pub file_name: Option<String>,
    pub truncated: bool,
}

pub open spec fn too_slow() -> Seq<char> {
    "Proses terlalu lama. Coba kurangi jumlah piutang atau target."@
}

pub open spec fn too_many() -> Seq<char> {
    "Kombinasi terlalu banyak untuk Max Invoice ini pada file tersebut. Turunkan Max Invoice per kombinasi (misal 5–8)."@
}

pub open spec fn run_failed() -> Seq<char> {
    "Proses gagal. Coba lagi."@
}

/// The answer to a finished run. A result file is recorded in `index` as
/// owned by `owner`, so that only this user can download it.
pub fn outcome_response(
    index: &mut OutputIndex,
    owner: &str,
    result: Result<RunOutcome, MatcherError>,
) -> (r: Result<ProcessReply, AppError>)
    ensures
        match result {
            Err(MatcherError::Timeout) => r matches Err(e) && e.status == 504 && e.detail@ == too_slow(),
            Err(MatcherError::BudgetExceeded) => r matches Err(e) && e.status == 400 && e.detail@ == too_many(),
            Err(MatcherError::Loader(l)) => r matches Err(e) && e.status == 400 && e.detail@ == loader_message(l),
            Err(MatcherError::Write(_)) => r matches Err(e) && e.status == 500 && e.detail@ == run_failed(),
            Ok(o) => match o.output_file {
                None => r matches Ok(p) && !p.found && p.total_rows == 0 && p.download_url is None && p.file_name is None
                    && p.truncated == o.truncated,
                Some(path) => {
                    let name = match file_name_at(path@, path@.len() as int) {
                        Some(n) => n,
                        None => Seq::<char>::empty(),
                    };
                    &&& r matches Ok(p)
                    &&& p.found && p.total_rows == o.total_rows && p.truncated == o.truncated
                    &&& p.file_name matches Some(f)
                    &&& f@ == name
                    &&& p.download_url matches Some(u)
                    &&& u@ == "/api/download/"@ + name
                    &&& final(index)@ == old(index)@.insert(name, owner@)
                },
            },
        },
        (result is Err || result->Ok_0.output_file is None) ==> final(index)@ == old(index)@,
{
    let outcome = match result {
        Ok(o) => o,
        Err(MatcherError::Timeout) => {
            return Err(AppError::timeout("Proses terlalu lama. Coba kurangi jumlah piutang atau target."));
        },
        Err(MatcherError::BudgetExceeded) => {
            return Err(
                AppError::bad(
                    "Kombinasi terlalu banyak untuk Max Invoice ini pada file tersebut. Turunkan Max Invoice per kombinasi (misal 5–8).",
                ),
            );
        },
        Err(MatcherError::Loader(l)) => {
            return Err(AppError::bad(loader_detail(l)));
        },
        Err(MatcherError::Write(_)) => {
            return Err(AppError::internal("Proses gagal. Coba lagi."));
        },
    };
    match outcome.output_file {
        None => Ok(ProcessReply {
            found: false,
            total_rows: 0,
            download_url: None,
            file_name: None,
            truncated: outcome.truncated,
        }),
        Some(path) => {
            let name = match file_name_chars(&chars_of(path.as_str())) {
                Some(n) => string_of(&n),
                None => String::new(),
            };
            index.insert(name.as_str(), owner);
            let mut url = String::from_str("/api/download/");
            url.append(name.as_str());
            Ok(ProcessReply {
                found: true,
                total_rows: outcome.total_rows,
                download_url: Some(url),
                file_name: Some(name),
                truncated: outcome.truncated,
            })
        },
    }
}

// ---------------------------------------------------------------------------
// Downloads
// ---------------------------------------------------------------------------

/// The location of a result file that `owner` may download: refuses (400) a
/// name that is not safe and (404) one that `owner` did not produce.
pub fn authorize_download(index: &OutputIndex, file_name: &str, owner: &str, config: &Config) -> (r: Result<
    String,
    AppError,
>)
    ensures
        !safe_name_spec(file_name@) ==> (r matches Err(e) && e.status == 400 && e.detail@ == "Invalid file name"@),
        safe_name_spec(file_name@) && !(index@.contains_key(file_name@) && index@[file_name@] == owner@) ==> (r matches Err(
            e,
        ) && e.status == 404 && e.detail@ == "File not found"@),
        safe_name_spec(file_name@) && index@.contains_key(file_name@) && index@[file_name@] == owner@ ==> (r matches Ok(p)
            && p@ == join_path(config.output_dir@, file_name@)),
{
    if !is_safe_name(file_name) {
        return Err(AppError::bad("Invalid file name"));
    }
    if !index.is_owner(file_name, owner) {
        return Err(AppError::not_found("File not found"));
    }
    Ok(join_path_exec(config.output_dir.as_str(), file_name))
}

/// The `Content-Disposition` value offering `file_name` as an attachment.
pub fn content_disposition(file_name: &str) -> (s: String)
    ensures
        s@ == "attachment; filename=\""@ + file_name@ + "\""@,
{
    let mut s = String::from_str("attachment; filename=\"");
    s.append(file_name);
    s.append("\"");
    s
}

/// The base64 digit for `v` in `0..64` (standard alphabet).
pub open spec fn b64_digit(v: int) -> char {
    if v < 26 {
        ('A' as int + v) as char
    } else if v < 52 {
        ('a' as int + (v - 26)) as char
    } else if v < 62 {
        ('0' as int + (v - 52)) as char
    } else if v == 62 {
        '+'
    } else {
        '/'
    }
}

/// Standard base64 with `=` padding (RFC 4648, section 4).
pub open spec fn base64_spec(b: Seq<u8>) -> Seq<char>
    decreases b.len(),
{
    let x = if b.len() > 0 { b[0] as int } else { 0 };
    let y = if b.len() > 1 { b[1] as int } else { 0 };
    let z = if b.len() > 2 { b[2] as int } else { 0 };
    if b.len() == 0 {
        Seq::empty()
    } else if b.len() == 1 {
        seq![b64_digit(x / 4), b64_digit((x % 4) * 16), '=', '=']
    } else if b.len() == 2 {
        seq![b64_digit(x / 4), b64_digit((x % 4) * 16 + y / 16), b64_digit((y % 16) * 4), '=']
    } else {
        seq![b64_digit(x / 4), b64_digit((x % 4) * 16 + y / 16), b64_digit((y % 16) * 4 + z / 64), b64_digit(z % 64)]
            + base64_spec(b.subrange(3, b.len() as int))
    }
}

/// `base64::engine::general_purpose::STANDARD.encode`: standard base64 with
/// padding, as the crate documents it.
#[verifier::external_body]
fn base64_encode(bytes: &[u8]) -> (s: String)
    ensures
        s@ == base64_spec(bytes@),
{
    BASE64.encode(bytes)
}

/// A result file handed over as JSON.
#[derive(Debug)]
pub struct DownloadData {
    pub file_name: String,
    pub media_type: String,
    pub data: String,
}

/// The JSON form of a result file: its name, media type and base64 bytes.
pub fn download_data(file_name: &str, bytes: &Vec<u8>) -> (d: DownloadData)
    ensures
        d.file_name@ == file_name@,
        d.media_type@ == XLSX_MIME@,
        d.data@ == base64_spec(bytes@),
{
    DownloadData {
        file_name: String::from_str(file_name),
        media_type: String::from_str(XLSX_MIME),
        data: base64_encode(bytes.as_slice()),
    }
}

} // verus!
