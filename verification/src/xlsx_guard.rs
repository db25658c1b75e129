//! Zip-bomb protections for uploaded workbooks: the file must be a readable
//! zip archive with a bounded number of entries, no absolute or traversing
//! entry paths, bounded per-entry and total uncompressed sizes, and a
//! `[Content_Types].xml` entry.
use vstd::prelude::*;
use std::io::Cursor;
use zip::ZipArchive;

use crate::cleaning::{split_chars, split_on};
use crate::config::Config;
use crate::error::AppError;
use crate::text::{chars_of, same_chars};

verus! {

#[verifier::external_type_specification]
#[verifier::external_body]
#[verifier::reject_recursive_types(T)]
pub struct ExCursor<T>(Cursor<T>);

#[verifier::external_type_specification]
#[verifier::external_body]
#[verifier::reject_recursive_types(R)]
pub struct ExZipArchive<R>(ZipArchive<R>);

/// What reading a zip archive from `bytes` yields: `None` when
/// `ZipArchive::new` refuses them; else, for each entry index, the name and
/// uncompressed size that `ZipArchive::by_index` reports, or `None` where
/// `by_index` fails.
pub uninterp spec fn zip_listing(bytes: Seq<u8>) -> Option<Seq<Option<(Seq<char>, u64)>>>;

/// The entries an opened archive holds, each as `ZipArchive::by_index`
/// reports it (name and uncompressed size), or `None` where it fails.
pub uninterp spec fn archive_entries(a: ZipArchive<Cursor<Vec<u8>>>) -> Seq<Option<(Seq<char>, u64)>>;

/// `ZipArchive::new` over the bytes. Its result is named by `zip_listing`.
#[verifier::external_body]
fn open_archive(bytes: Vec<u8>) -> (r: Option<ZipArchive<Cursor<Vec<u8>>>>)
    ensures
        r is Some <==> zip_listing(bytes@) is Some,
        r matches Some(a) ==> zip_listing(bytes@) == Some(archive_entries(a)),
{
    ZipArchive::new(Cursor::new(bytes)).ok()
}

/// `ZipArchive::len`: the number of entries.
#[verifier::external_body]
fn archive_len(a: &ZipArchive<Cursor<Vec<u8>>>) -> (n: usize)
    ensures
        n == archive_entries(*a).len(),
{
    a.len()
}

/// `ZipArchive::by_index`, then `ZipFile::name` and `ZipFile::size` of the
/// entry. Reading an entry leaves the archive's entries as they were.
#[verifier::external_body]
fn archive_entry(a: &mut ZipArchive<Cursor<Vec<u8>>>, index: usize) -> (r: Option<(String, u64)>)
    requires
        index < archive_entries(*old(a)).len(),
    ensures
        archive_entries(*final(a)) == archive_entries(*old(a)),
        r matches Some(e) ==> archive_entries(*old(a))[index as int] == Some((e.0@, e.1)),
        r is None ==> archive_entries(*old(a))[index as int] is None,
{
    match a.by_index(index) {
        Ok(entry) => Some((entry.name().to_string(), entry.size())),
        Err(_) => None,
    }
}

/// Why an upload is not accepted as a workbook.
#[derive(Clone, Copy, Debug, PartialEq, Eq, Structural)]
pub enum GuardError {
    /// Not a readable archive, a bad entry path, or no content-types entry.
    Invalid,
    /// Too many entries.
    TooComplex,
    /// An entry, or all entries together, too large once uncompressed.
    TooBig,
}

pub open spec fn guard_message(e: GuardError) -> Seq<char> {
    match e {
        GuardError::Invalid => "File .xlsx tidak valid"@,
        GuardError::TooComplex => "File Excel terlalu kompleks"@,
        GuardError::TooBig => "File Excel terlalu besar"@,
    }
}

/// The message shown for a refused upload.
pub fn guard_detail(e: GuardError) -> (s: &'static str)
    ensures
        s@ == guard_message(e),
{
    match e {
        GuardError::Invalid => "File .xlsx tidak valid",
        GuardError::TooComplex => "File Excel terlalu kompleks",
        GuardError::TooBig => "File Excel terlalu besar",
    }
}

/// An entry name with `\` read as `/`.
pub open spec fn normalize(name: Seq<char>) -> Seq<char> {
    name.map_values(|c: char| if c == '\\' { '/' } else { c })
}

/// Some `/`-separated segment of `name` is `..`.
pub open spec fn has_traversal(name: Seq<char>) -> bool {
    split_on(name, '/').contains(seq!['.', '.'])
}

/// An entry path that is absolute or climbs out of the archive.
pub open spec fn unsafe_path(name: Seq<char>) -> bool {
    (name.len() > 0 && name[0] == '/') || has_traversal(name)
}

pub open spec fn content_types_name() -> Seq<char> {
    "[Content_Types].xml"@
}

/// The verdict on the entries from index `i` on, with `total` uncompressed
/// bytes counted so far and `seen` telling whether the content-types entry
/// was met.
pub open spec fn scan(
    entries: Seq<Option<(Seq<char>, u64)>>,
    max_entry: u64,
    max_total: u64,
    i: int,
    total: int,
    seen: bool,
) -> Result<(), GuardError>
    decreases entries.len() - i,
{
    if i < 0 || i >= entries.len() {
        if seen {
            Ok(())
        } else {
            Err(GuardError::Invalid)
        }
    } else {
        match entries[i] {
            None => Err(GuardError::Invalid),
            Some(e) => {
                let name = normalize(e.0);
                if unsafe_path(name) {
                    Err(GuardError::Invalid)
                } else if e.1 > max_entry {
                    Err(GuardError::TooBig)
                } else if total + e.1 > max_total {
                    Err(GuardError::TooBig)
                } else {
                    scan(entries, max_entry, max_total, i + 1, total + e.1, seen || name == content_types_name())
                }
            },
        }
    }
}

/// The verdict on an archive's entries under the limits of `config`.
pub open spec fn entries_verdict(entries: Seq<Option<(Seq<char>, u64)>>, config: Config) -> Result<(), GuardError> {
    if entries.len() > config.max_xlsx_entries {
        Err(GuardError::TooComplex)
    } else {
        scan(entries, config.max_xlsx_entry_bytes, config.max_xlsx_uncompressed_bytes, 0, 0, false)
    }
}

/// The verdict on an upload's bytes under the limits of `config`.
pub open spec fn xlsx_verdict(listing: Option<Seq<Option<(Seq<char>, u64)>>>, config: Config) -> Result<(), GuardError> {
    match listing {
        None => Err(GuardError::Invalid),
        Some(entries) => entries_verdict(entries, config),
    }
}

fn normalize_chars(name: &Vec<char>) -> (r: Vec<char>)
    ensures
        r@ == normalize(name@),
{
    let mut r: Vec<char> = Vec::new();
    let mut i: usize = 0;
    while i < name.len()
        invariant
            i <= name@.len(),
            r@ == normalize(name@.take(i as int)),
        decreases name@.len() - i,
    {
        let c = name[i];
        r.push(if c == '\\' { '/' } else { c });
        assert(normalize(name@.take(i + 1)) =~= normalize(name@.take(i as int)).push(if c == '\\' { '/' } else { c }));
        i = i + 1;
    }
    assert(name@.take(name@.len() as int) =~= name@);
    r
}

fn has_traversal_segment(name: &Vec<char>) -> (b: bool)
    ensures
        b == has_traversal(name@),
{
    let pieces = split_chars(name, '/');
    let ghost ps = pieces@.map_values(|p: Vec<char>| p@);
    let dots: Vec<char> = vec!['.', '.'];
    assert(dots@ =~= seq!['.', '.']);
    let mut i: usize = 0;
    while i < pieces.len()
        invariant
            i <= pieces@.len(),
            ps == pieces@.map_values(|p: Vec<char>| p@),
            ps == split_on(name@, '/'),
            dots@ == seq!['.', '.'],
            forall|j: int| 0 <= j < i ==> ps[j] != seq!['.', '.'],
        decreases pieces@.len() - i,
    {
        assert(ps[i as int] == pieces@[i as int]@);
        if same_chars(&pieces[i], &dots) {
            return true;
        }
        i = i + 1;
    }
    proof {
        if ps.contains(seq!['.', '.']) {
            let j = choose|j: int| 0 <= j < ps.len() && ps[j] == seq!['.', '.'];
            assert(ps[j] != seq!['.', '.']);
        }
    }
    false
}

/// The verdict on an archive's entries, each given as `by_index` reports it
/// (`None` where reading the entry failed), under the limits of `config`.
pub fn check_entries(entries: &Vec<Option<(String, u64)>>, config: &Config) -> (r: Result<(), GuardError>)
    ensures
        r == entries_verdict(entries@.map_values(|e: Option<(String, u64)>| entry_view(e)), *config),
{
    let ghost ev = entries@.map_values(|e: Option<(String, u64)>| entry_view(e));
    assert(ev.len() == entries@.len());
    if entries.len() > config.max_xlsx_entries {
        return Err(GuardError::TooComplex);
    }
    let ct = chars_of("[Content_Types].xml");
    let mut total: u64 = 0;
    let mut seen = false;
    let mut i: usize = 0;
    while i < entries.len()
        invariant
            i <= entries@.len(),
            ev == entries@.map_values(|e: Option<(String, u64)>| entry_view(e)),
            ev.len() == entries@.len(),
            entries@.len() <= config.max_xlsx_entries,
            ct@ == content_types_name(),
            total <= config.max_xlsx_uncompressed_bytes,
            scan(ev, config.max_xlsx_entry_bytes, config.max_xlsx_uncompressed_bytes, 0, 0, false)
                == scan(ev, config.max_xlsx_entry_bytes, config.max_xlsx_uncompressed_bytes, i as int, total as int, seen),
        decreases entries@.len() - i,
    {
        assert(ev[i as int] == entry_view(entries@[i as int]));
        match &entries[i] {
            None => {
                return Err(GuardError::Invalid);
            },
            Some(e) => {
                let name = normalize_chars(&chars_of(e.0.as_str()));
                let absolute = name.len() > 0 && name[0] == '/';
                if absolute || has_traversal_segment(&name) {
                    return Err(GuardError::Invalid);
                }
                if e.1 > config.max_xlsx_entry_bytes {
                    return Err(GuardError::TooBig);
                }
                if e.1 as u128 + total as u128 > config.max_xlsx_uncompressed_bytes as u128 {
                    return Err(GuardError::TooBig);
                }
                total = total + e.1;
                seen = seen || same_chars(&name, &ct);
            },
        }
        i = i + 1;
    }
    if seen {
        Ok(())
    } else {
        Err(GuardError::Invalid)
    }
}

/// An entry as plain values.
pub open spec fn entry_view(e: Option<(String, u64)>) -> Option<(Seq<char>, u64)> {
    match e {
        Some(p) => Some((p.0@, p.1)),
        None => None,
    }
}

/// Checks that `bytes` hold an xlsx upload within the limits of `config`,
/// refusing it with a 400 error that names the problem otherwise.
pub fn validate_xlsx(bytes: Vec<u8>, config: &Config) -> (r: Result<(), AppError>)
    ensures
        r is Ok <==> xlsx_verdict(zip_listing(bytes@), *config) is Ok,
        r matches Err(e) ==> xlsx_verdict(zip_listing(bytes@), *config) matches Err(g) && e.status == 400
            && e.detail@ == guard_message(g),
{
    let ghost listing = zip_listing(bytes@);
    let mut archive = match open_archive(bytes) {
        Some(a) => a,
        None => return Err(AppError::bad(guard_detail(GuardError::Invalid))),
    };
    let ghost all = archive_entries(archive);
    let n = archive_len(&archive);
    if n > config.max_xlsx_entries {
        return Err(AppError::bad(guard_detail(GuardError::TooComplex)));
    }
    let mut entries: Vec<Option<(String, u64)>> = Vec::new();
    let mut i: usize = 0;
    while i < n
        invariant
            i <= n,
            n == all.len(),
            archive_entries(archive) == all,
            entries@.len() == i,
            forall|j: int| 0 <= j < i ==> entry_view(#[trigger] entries@[j]) == all[j],
        decreases n - i,
    {
        let e = archive_entry(&mut archive, i);
        entries.push(e);
        i = i + 1;
    }
    assert(entries@.map_values(|e: Option<(String, u64)>| entry_view(e)) =~= all);
    match check_entries(&entries, config) {
        Ok(()) => Ok(()),
        Err(g) => Err(AppError::bad(guard_detail(g))),
    }
}

/// Uncompressed bytes of the entries before index `n`.
pub open spec fn sizes_before(entries: Seq<Option<(Seq<char>, u64)>>, n: int) -> int
    decreases n,
{
    if n <= 0 || n > entries.len() {
        0
    } else {
        sizes_before(entries, n - 1) + match entries[n - 1] {
            Some(e) => e.1 as int,
            None => 0,
        }
    }
}

/// A readable entry with a safe path, within the per-entry cap.
pub open spec fn entry_allowed(entry: Option<(Seq<char>, u64)>, max_entry: u64) -> bool {
    match entry {
        Some(e) => !unsafe_path(normalize(e.0)) && e.1 <= max_entry,
        None => false,
    }
}

/// The `[Content_Types].xml` entry.
pub open spec fn is_content_types(entry: Option<(Seq<char>, u64)>) -> bool {
    match entry {
        Some(e) => normalize(e.0) == content_types_name(),
        None => false,
    }
}

proof fn lemma_scan_accepts(
    entries: Seq<Option<(Seq<char>, u64)>>,
    max_entry: u64,
    max_total: u64,
    i: int,
    seen: bool,
)
    requires
        0 <= i <= entries.len(),
        sizes_before(entries, i) <= max_total,
        scan(entries, max_entry, max_total, i, sizes_before(entries, i), seen) is Ok,
    ensures
        forall|j: int| i <= j < entries.len() ==> entry_allowed(#[trigger] entries[j], max_entry),
        sizes_before(entries, entries.len() as int) <= max_total,
        seen || exists|j: int| i <= j < entries.len() && is_content_types(#[trigger] entries[j]),
    decreases entries.len() - i,
{
    if i < entries.len() {
        let e = entries[i]->0;
        let name = normalize(e.0);
        assert(sizes_before(entries, i + 1) == sizes_before(entries, i) + e.1);
        lemma_scan_accepts(entries, max_entry, max_total, i + 1, seen || name == content_types_name());
        assert(entry_allowed(entries[i], max_entry));
        if !seen && name != content_types_name() {
            let j = choose|j: int| i + 1 <= j < entries.len() && is_content_types(#[trigger] entries[j]);
            assert(i <= j);
        } else if !seen {
            assert(is_content_types(entries[i]));
        }
    }
}

/// What the zip-bomb guard lets through: a readable archive of at most the
/// allowed number of entries, each readable, with a safe path and within the
/// per-entry size cap, all within the total size cap, one of them
/// `[Content_Types].xml`.
pub proof fn lemma_accepted_upload_is_bounded(listing: Option<Seq<Option<(Seq<char>, u64)>>>, config: Config)
    requires
        xlsx_verdict(listing, config) is Ok,
    ensures
        listing is Some,
        listing->0.len() <= config.max_xlsx_entries,
        forall|j: int| 0 <= j < listing->0.len() ==> entry_allowed(#[trigger] listing->0[j], config.max_xlsx_entry_bytes),
        sizes_before(listing->0, listing->0.len() as int) <= config.max_xlsx_uncompressed_bytes,
        exists|j: int| 0 <= j < listing->0.len() && is_content_types(#[trigger] listing->0[j]),
{
    let entries = listing->0;
    assert(sizes_before(entries, 0) == 0);
    lemma_scan_accepts(entries, config.max_xlsx_entry_bytes, config.max_xlsx_uncompressed_bytes, 0, false);
}

} // verus!
