//! Reading the accounts-receivable sheet, with these rules kept by design:
//!
//! - header row = first row whose cell text contains "Nama Pelanggan"
//! - column mapping via substring match, first match wins per key
//! - Total cleaning: text form -> remove "," -> cut at the first "."
//!   (so string cells like "Rp1.234" intentionally become unparsable)
//! - rows missing any required field, or with Total <= 0, are dropped
use vstd::prelude::*;
use chrono::{Datelike, NaiveDate, NaiveDateTime};

use crate::cleaning::{
    all_digits, contains_chars, digits_value, has_substring, is_space, parse_i64, parse_i64_spec, trim, trim_chars,
    trim_end, trim_start,
};
use crate::writer::{commas_spec, group_thousands};
use crate::engine::{all_positive, InvoiceRow};
use crate::matcher::groups_positive;
use crate::text::{chars_of, decimal, decimal_chars, push_char, signed_decimal, string_of};

verus! {

/// A calendar date.
#[derive(Debug, Clone, Copy, PartialEq, Eq, Structural)]
pub struct CalDate {
    pub year: i32,
    pub month: u32,
    pub day: u32,
}

impl CalDate {
    pub fn new(year: i32, month: u32, day: u32) -> (d: CalDate)
        ensures
            d.year == year && d.month == month && d.day == day,
    {
        CalDate { year, month, day }
    }
}

/// One worksheet cell, holding what the loader reads of it. Floating-point
/// and date-time cells arrive already rendered as text.
#[derive(Debug, Clone)]
pub enum Cell {
    Empty,
    /// A text cell.
    Text(String),
    Int(i64),
    /// A floating-point cell: `shown` is its display text, `repr` its
    /// text form for the Total column (whole values keep a trailing `.0`).
    Float { shown: String, repr: String },
    Bool(bool),
    /// A spreadsheet date-time: its display text and its calendar date, if
    /// it has one.
    DateTime { shown: String, date: Option<CalDate> },
    DateTimeIso(String),
    DurationIso(String),
    /// An error cell, by its display text.
    Error(String),
}

#[derive(Debug, Clone, Copy, PartialEq, Eq, Structural)]
pub enum LoaderError {
    /// "Gagal membaca file Excel. Pastikan file .xlsx valid dan tidak rusak."
    ReadFailed,
    /// "Header tidak ditemukan. Pastikan ada kolom 'Nama Pelanggan'."
    HeaderNotFound,
    /// "Kolom penting tidak lengkap. Wajib ada: ..."
    ColumnsIncomplete,
    /// "Data kosong setelah dibersihkan. Pastikan kolom Total berisi angka ..."
    EmptyAfterClean,
}

#[derive(Debug, Clone)]
pub struct GroupedData {
    /// Customer groups in first-appearance order.
    pub groups: Vec<(String, Vec<InvoiceRow>)>,
}

/// The display text of a cell.
pub open spec fn display_spec(c: Cell) -> Seq<char> {
    match c {
        Cell::Empty => Seq::empty(),
        Cell::Text(s) => s@,
        Cell::Int(i) => signed_decimal(i as int),
        Cell::Float { shown, .. } => shown@,
        Cell::Bool(b) => if b {
            seq!['t', 'r', 'u', 'e']
        } else {
            seq!['f', 'a', 'l', 's', 'e']
        },
        Cell::DateTime { shown, .. } => shown@,
        Cell::DateTimeIso(s) => s@,
        Cell::DurationIso(s) => s@,
        Cell::Error(s) => s@,
    }
}

pub fn data_display(c: &Cell) -> (s: Vec<char>)
    ensures
        s@ == display_spec(*c),
{
    match c {
        Cell::Empty => Vec::new(),
        Cell::Text(s) => chars_of(s.as_str()),
        Cell::Int(i) => decimal_chars(*i),
        Cell::Float { shown, .. } => chars_of(shown.as_str()),
        Cell::Bool(b) => {
            let mut v = Vec::new();
            if *b {
                v.push('t');
                v.push('r');
                v.push('u');
                v.push('e');
                assert(v@ =~= seq!['t', 'r', 'u', 'e']);
            } else {
                v.push('f');
                v.push('a');
                v.push('l');
                v.push('s');
                v.push('e');
                assert(v@ =~= seq!['f', 'a', 'l', 's', 'e']);
            }
            v
        },
        Cell::DateTime { shown, .. } => chars_of(shown.as_str()),
        Cell::DateTimeIso(s) => chars_of(s.as_str()),
        Cell::DurationIso(s) => chars_of(s.as_str()),
        Cell::Error(s) => chars_of(s.as_str()),
    }
}

// ---------------------------------------------------------------------------
// Total column
// ---------------------------------------------------------------------------

/// `s` with every `,` removed.
pub open spec fn remove_commas(s: Seq<char>) -> Seq<char>
    decreases s.len(),
{
    if s.len() == 0 {
        s
    } else if s.last() == ',' {
        remove_commas(s.drop_last())
    } else {
        remove_commas(s.drop_last()).push(s.last())
    }
}

/// Index of the first `.` in `s`, or its length when there is none.
pub open spec fn first_dot(s: Seq<char>) -> int
    decreases s.len(),
{
    if s.len() == 0 || s[0] == '.' {
        0
    } else {
        1 + first_dot(s.drop_first())
    }
}

/// `s` up to (not including) its first `.`.
pub open spec fn cut_at_dot(s: Seq<char>) -> Seq<char> {
    s.take(first_dot(s))
}

/// The text form of a cell that the Total column is parsed from.
pub open spec fn total_text(c: Cell) -> Option<Seq<char>> {
    match c {
        Cell::Float { repr, .. } => Some(repr@),
        Cell::Int(i) => Some(signed_decimal(i as int)),
        Cell::Text(s) => Some(s@),
        _ => None,
    }
}

/// Amount read from a Total cell: text form, commas removed, cut at the
/// first dot, trimmed, parsed as an `i64`.
pub open spec fn total_spec(c: Cell) -> Option<int> {
    match total_text(c) {
        None => None,
        Some(raw) => total_of_text(raw),
    }
}

/// Amount read from the text form of a Total cell: commas removed, cut at
/// the first dot, trimmed, parsed as an `i64`.
pub open spec fn total_of_text(raw: Seq<char>) -> Option<int> {
    parse_i64_spec(trim(cut_at_dot(remove_commas(raw))))
}

proof fn lemma_first_dot(s: Seq<char>, i: int)
    requires
        0 <= i <= s.len(),
        forall|j: int| 0 <= j < i ==> s[j] != '.',
        i == s.len() || s[i] == '.',
    ensures
        first_dot(s) == i,
    decreases i,
{
    if i > 0 {
        lemma_first_dot(s.drop_first(), i - 1);
    }
}

fn total_text_chars(c: &Cell) -> (r: Option<Vec<char>>)
    ensures
        r matches Some(v) ==> total_text(*c) == Some(v@),
        r is None ==> total_text(*c) is None,
{
    match c {
        Cell::Float { repr, .. } => Some(chars_of(repr.as_str())),
        Cell::Int(i) => Some(decimal_chars(*i)),
        Cell::Text(s) => Some(chars_of(s.as_str())),
        _ => None,
    }
}

/// Amount of a Total cell: its text form, commas removed, cut at the first
/// dot, trimmed, parsed as an `i64`.
pub fn total_from_cell(c: &Cell) -> (r: Option<i64>)
    ensures
        r matches Some(v) ==> total_spec(*c) == Some(v as int),
        r is None ==> total_spec(*c) is None,
{
    let raw = match total_text_chars(c) {
        None => return None,
        Some(v) => v,
    };
    let mut no_commas: Vec<char> = Vec::new();
    let mut i: usize = 0;
    while i < raw.len()
        invariant
            i <= raw@.len(),
            no_commas@ == remove_commas(raw@.take(i as int)),
        decreases raw@.len() - i,
    {
        assert(raw@.take(i + 1).drop_last() =~= raw@.take(i as int));
        if raw[i] != ',' {
            no_commas.push(raw[i]);
        }
        i = i + 1;
    }
    assert(raw@.take(raw@.len() as int) =~= raw@);
    let mut cut: Vec<char> = Vec::new();
    let mut j: usize = 0;
    while j < no_commas.len() && no_commas[j] != '.'
        invariant
            j <= no_commas@.len(),
            cut@ == no_commas@.take(j as int),
            forall|t: int| 0 <= t < j ==> no_commas@[t] != '.',
        decreases no_commas@.len() - j,
    {
        cut.push(no_commas[j]);
        assert(no_commas@.take(j + 1) =~= no_commas@.take(j as int).push(no_commas@[j as int]));
        j = j + 1;
    }
    proof {
        lemma_first_dot(no_commas@, j as int);
    }
    let t = trim_chars(&cut);
    parse_i64(&t)
}

// ---------------------------------------------------------------------------
// Dates
// ---------------------------------------------------------------------------

/// What `NaiveDate::parse_from_str(s, fmt)` yields, as (year, month, day).
pub uninterp spec fn chrono_date_parse(s: Seq<char>, fmt: Seq<char>) -> Option<(i32, u32, u32)>;

/// The date part of what `NaiveDateTime::parse_from_str(s, fmt)` yields, as
/// (year, month, day).
pub uninterp spec fn chrono_datetime_parse(s: Seq<char>, fmt: Seq<char>) -> Option<(i32, u32, u32)>;

/// Calls `chrono::NaiveDate::parse_from_str`; the result is the named
/// `chrono_date_parse` of the text and the format.
#[verifier::external_body]
fn naive_date_parse(s: &str, fmt: &str) -> (r: Option<CalDate>)
    ensures
        r matches Some(d) ==> chrono_date_parse(s@, fmt@) == Some((d.year, d.month, d.day)),
        r is None ==> chrono_date_parse(s@, fmt@) is None,
{
    match NaiveDate::parse_from_str(s, fmt) {
        Ok(d) => Some(CalDate { year: d.year(), month: d.month(), day: d.day() }),
        Err(_) => None,
    }
}

/// Calls `chrono::NaiveDateTime::parse_from_str` and keeps the date; the
/// result is the named `chrono_datetime_parse` of the text and the format.
#[verifier::external_body]
fn naive_datetime_parse(s: &str, fmt: &str) -> (r: Option<CalDate>)
    ensures
        r matches Some(d) ==> chrono_datetime_parse(s@, fmt@) == Some((d.year, d.month, d.day)),
        r is None ==> chrono_datetime_parse(s@, fmt@) is None,
{
    match NaiveDateTime::parse_from_str(s, fmt) {
        Ok(dt) => {
            let d = dt.date();
            Some(CalDate { year: d.year(), month: d.month(), day: d.day() })
        },
        Err(_) => None,
    }
}

/// A format tried as a date, then as a date-time.
pub open spec fn try_format(s: Seq<char>, fmt: Seq<char>) -> Option<(i32, u32, u32)> {
    match chrono_date_parse(s, fmt) {
        Some(d) => Some(d),
        None => chrono_datetime_parse(s, fmt),
    }
}

/// Date of a text, trying the accepted formats in order (month-first for
/// ambiguous slash and dash dates).
pub open spec fn parse_date_spec(s: Seq<char>) -> Option<(i32, u32, u32)> {
    let t = trim(s);
    match try_format(t, "%Y-%m-%d %H:%M:%S%.f"@) {
        Some(d) => Some(d),
        None => match try_format(t, "%Y-%m-%dT%H:%M:%S%.f"@) {
            Some(d) => Some(d),
            None => match try_format(t, "%Y-%m-%d"@) {
                Some(d) => Some(d),
                None => match try_format(t, "%Y/%m/%d"@) {
                    Some(d) => Some(d),
                    None => match try_format(t, "%m/%d/%Y %H:%M:%S"@) {
                        Some(d) => Some(d),
                        None => match try_format(t, "%m/%d/%Y"@) {
                            Some(d) => Some(d),
                            None => try_format(t, "%m-%d-%Y"@),
                        },
                    },
                },
            },
        },
    }
}

pub open spec fn date_tuple(d: Option<CalDate>) -> Option<(i32, u32, u32)> {
    match d {
        Some(d) => Some((d.year, d.month, d.day)),
        None => None,
    }
}

fn try_format_exec(s: &str, fmt: &str) -> (r: Option<CalDate>)
    ensures
        date_tuple(r) == try_format(s@, fmt@),
{
    match naive_date_parse(s, fmt) {
        Some(d) => Some(d),
        None => naive_datetime_parse(s, fmt),
    }
}

/// Date of a text in one of the accepted formats.
pub fn parse_date_str(s: &str) -> (r: Option<CalDate>)
    ensures
        date_tuple(r) == parse_date_spec(s@),
{
    let t = crate::cleaning::trimmed(s);
    let t = t.as_str();
    let r = try_format_exec(t, "%Y-%m-%d %H:%M:%S%.f");
    if r.is_some() {
        return r;
    }
    let r = try_format_exec(t, "%Y-%m-%dT%H:%M:%S%.f");
    if r.is_some() {
        return r;
    }
    let r = try_format_exec(t, "%Y-%m-%d");
    if r.is_some() {
        return r;
    }
    let r = try_format_exec(t, "%Y/%m/%d");
    if r.is_some() {
        return r;
    }
    let r = try_format_exec(t, "%m/%d/%Y %H:%M:%S");
    if r.is_some() {
        return r;
    }
    let r = try_format_exec(t, "%m/%d/%Y");
    if r.is_some() {
        return r;
    }
    try_format_exec(t, "%m-%d-%Y")
}

/// The invoice date of a cell.
pub open spec fn date_spec(c: Cell) -> Option<(i32, u32, u32)> {
    match c {
        Cell::DateTime { date, .. } => date_tuple(date),
        Cell::DateTimeIso(s) => parse_date_spec(s@),
        Cell::Text(s) => parse_date_spec(s@),
        _ => None,
    }
}

pub fn date_from_cell(c: &Cell) -> (r: Option<CalDate>)
    ensures
        date_tuple(r) == date_spec(*c),
{
    match c {
        Cell::DateTime { date, .. } => *date,
        Cell::DateTimeIso(s) => parse_date_str(s.as_str()),
        Cell::Text(s) => parse_date_str(s.as_str()),
        _ => None,
    }
}

/// `n` printed with at least two digits (`{:02}`).
pub open spec fn pad2(n: nat) -> Seq<char> {
    if n < 10 {
        seq!['0'] + decimal(n)
    } else {
        decimal(n)
    }
}

/// `dd/mm/yyyy`: day and month with two digits, then the year.
pub open spec fn date_label_spec(year: int, month: nat, day: nat) -> Seq<char> {
    pad2(day) + seq!['/'] + pad2(month) + seq!['/'] + signed_decimal(year)
}

fn push_pad2(out: &mut Vec<char>, n: u32)
    ensures
        final(out)@ == old(out)@ + pad2(n as nat),
{
    if n < 10 {
        out.push('0');
    }
    let ghost before = out@;
    crate::text::push_decimal(out, n as u64);
    if n < 10 {
        assert(out@ =~= old(out)@ + (seq!['0'] + decimal(n as nat)));
    }
}

pub fn format_date_label(date: CalDate) -> (s: String)
    ensures
        s@ == date_label_spec(date.year as int, date.month as nat, date.day as nat),
{
    let mut out: Vec<char> = Vec::new();
    push_pad2(&mut out, date.day);
    out.push('/');
    push_pad2(&mut out, date.month);
    out.push('/');
    let year = decimal_chars(date.year as i64);
    let mut i: usize = 0;
    let ghost base = out@;
    while i < year.len()
        invariant
            i <= year@.len(),
            out@ == base + year@.take(i as int),
        decreases year@.len() - i,
    {
        out.push(year[i]);
        assert(year@.take(i + 1) =~= year@.take(i as int).push(year@[i as int]));
        i = i + 1;
    }
    assert(year@.take(year@.len() as int) =~= year@);
    assert(out@ =~= pad2(date.day as nat) + seq!['/'] + pad2(date.month as nat) + seq!['/'] + signed_decimal(
        date.year as int,
    ));
    string_of(&out)
}


// ---------------------------------------------------------------------------
// Header and columns
// ---------------------------------------------------------------------------

/// Column positions of the four required fields.
#[derive(Debug, Clone, Copy, PartialEq, Eq, Structural)]
pub struct ColumnMap {
    pub customer: usize,
    pub invoice_no: usize,
    pub invoice_date: usize,
    pub total: usize,
}

/// Some cell of `row` shows the text "Nama Pelanggan".
pub open spec fn is_header_row(row: Seq<Cell>) -> bool {
    exists|j: int| 0 <= j < row.len() && has_substring(display_spec(#[trigger] row[j]), "Nama Pelanggan"@)
}

/// Index of the first header row at or after `i`.
pub open spec fn first_header(rows: Seq<Vec<Cell>>, i: int) -> Option<int>
    decreases rows.len() - i,
{
    if i < 0 || i >= rows.len() {
        None
    } else if is_header_row(rows[i]@) {
        Some(i)
    } else {
        first_header(rows, i + 1)
    }
}

fn row_is_header(row: &Vec<Cell>, needle: &Vec<char>) -> (b: bool)
    requires
        needle@ == "Nama Pelanggan"@,
    ensures
        b == is_header_row(row@),
{
    let mut j: usize = 0;
    while j < row.len()
        invariant
            j <= row@.len(),
            needle@ == "Nama Pelanggan"@,
            forall|t: int| 0 <= t < j ==> !has_substring(display_spec(#[trigger] row@[t]), "Nama Pelanggan"@),
        decreases row@.len() - j,
    {
        let shown = data_display(&row[j]);
        if contains_chars(&shown, needle) {
            return true;
        }
        j = j + 1;
    }
    false
}

/// Index of the first row whose cell text contains "Nama Pelanggan".
pub fn find_header_row(rows: &Vec<Vec<Cell>>) -> (r: Option<usize>)
    ensures
        r matches Some(i) ==> first_header(rows@, 0) == Some(i as int),
        r is None ==> first_header(rows@, 0) is None,
{
    let needle = chars_of("Nama Pelanggan");
    let mut i: usize = 0;
    while i < rows.len()
        invariant
            i <= rows@.len(),
            needle@ == "Nama Pelanggan"@,
            first_header(rows@, 0) == first_header(rows@, i as int),
        decreases rows@.len() - i,
    {
        if row_is_header(&rows[i], &needle) {
            return Some(i);
        }
        i = i + 1;
    }
    None
}

/// The header text of a cell: trimmed for text cells, as displayed otherwise.
pub open spec fn header_name(c: Cell) -> Seq<char> {
    match c {
        Cell::Text(s) => trim(s@),
        _ => display_spec(c),
    }
}

/// Partial column assignment: customer, invoice number, invoice date, total.
pub type ColumnSlots = (Option<usize>, Option<usize>, Option<usize>, Option<usize>);

/// Assigns column `idx` named `name` to the first still-unassigned field
/// whose title it contains.
pub open spec fn assign_column(st: ColumnSlots, name: Seq<char>, idx: usize) -> ColumnSlots {
    if st.0 is None && has_substring(name, "Nama Pelanggan"@) {
        (Some(idx), st.1, st.2, st.3)
    } else if st.1 is None && has_substring(name, "No. Faktur"@) {
        (st.0, Some(idx), st.2, st.3)
    } else if st.2 is None && has_substring(name, "Tgl. Faktur"@) {
        (st.0, st.1, Some(idx), st.3)
    } else if st.3 is None && has_substring(name, "Total"@) {
        (st.0, st.1, st.2, Some(idx))
    } else {
        st
    }
}

/// Assignment after the first `m` header cells.
pub open spec fn column_slots(header: Seq<Cell>, m: int) -> ColumnSlots
    decreases m,
{
    if m <= 0 || m > header.len() {
        (None, None, None, None)
    } else {
        assign_column(column_slots(header, m - 1), header_name(header[m - 1]), (m - 1) as usize)
    }
}

/// The column map of a header row, when all four fields are found.
pub open spec fn columns_spec(header: Seq<Cell>) -> Option<ColumnMap> {
    let st = column_slots(header, header.len() as int);
    if st.0 is Some && st.1 is Some && st.2 is Some && st.3 is Some {
        Some(ColumnMap { customer: st.0->0, invoice_no: st.1->0, invoice_date: st.2->0, total: st.3->0 })
    } else {
        None
    }
}

fn header_name_chars(c: &Cell) -> (v: Vec<char>)
    ensures
        v@ == header_name(*c),
{
    match c {
        Cell::Text(s) => trim_chars(&chars_of(s.as_str())),
        _ => data_display(c),
    }
}

pub fn map_columns(header: &Vec<Cell>) -> (r: Option<ColumnMap>)
    ensures
        r == columns_spec(header@),
{
    let n1 = chars_of("Nama Pelanggan");
    let n2 = chars_of("No. Faktur");
    let n3 = chars_of("Tgl. Faktur");
    let n4 = chars_of("Total");
    let mut s0: Option<usize> = None;
    let mut s1: Option<usize> = None;
    let mut s2: Option<usize> = None;
    let mut s3: Option<usize> = None;
    let mut j: usize = 0;
    while j < header.len()
        invariant
            j <= header@.len(),
            n1@ == "Nama Pelanggan"@,
            n2@ == "No. Faktur"@,
            n3@ == "Tgl. Faktur"@,
            n4@ == "Total"@,
            (s0, s1, s2, s3) == column_slots(header@, j as int),
        decreases header@.len() - j,
    {
        let name = header_name_chars(&header[j]);
        if s0.is_none() && contains_chars(&name, &n1) {
            s0 = Some(j);
        } else if s1.is_none() && contains_chars(&name, &n2) {
            s1 = Some(j);
        } else if s2.is_none() && contains_chars(&name, &n3) {
            s2 = Some(j);
        } else if s3.is_none() && contains_chars(&name, &n4) {
            s3 = Some(j);
        }
        j = j + 1;
    }
    match (s0, s1, s2, s3) {
        (Some(a), Some(b), Some(c), Some(d)) => Some(ColumnMap { customer: a, invoice_no: b, invoice_date: c, total: d }),
        _ => None,
    }
}


// ---------------------------------------------------------------------------
// Rows and groups
// ---------------------------------------------------------------------------

/// An invoice row as plain values: number, date label, amount.
pub open spec fn row_view(r: InvoiceRow) -> (Seq<char>, Seq<char>, int) {
    (r.invoice_no@, r.date_label@, r.amount as int)
}

/// The cell of `row` at `col`; missing cells are empty.
pub open spec fn cell_at(row: Seq<Cell>, col: int) -> Cell {
    if 0 <= col < row.len() {
        row[col]
    } else {
        Cell::Empty
    }
}

/// The customer and invoice a data row yields, or `None` when the row is
/// dropped (blank customer, blank or "nan" invoice number, no date, or a
/// Total that is missing, unparsable or not positive).
pub open spec fn clean_row_spec(row: Seq<Cell>, cols: ColumnMap) -> Option<(Seq<char>, (Seq<char>, Seq<char>, int))> {
    let customer = trim(display_spec(cell_at(row, cols.customer as int)));
    let invoice = trim(display_spec(cell_at(row, cols.invoice_no as int)));
    if customer.len() == 0 {
        None
    } else if invoice.len() == 0 || invoice == seq!['n', 'a', 'n'] {
        None
    } else {
        match date_spec(cell_at(row, cols.invoice_date as int)) {
            None => None,
            Some(d) => match total_spec(cell_at(row, cols.total as int)) {
                None => None,
                Some(t) => if t <= 0 {
                    None
                } else {
                    Some((customer, (invoice, date_label_spec(d.0 as int, d.1 as nat, d.2 as nat), t)))
                },
            },
        }
    }
}

fn display_at(row: &Vec<Cell>, col: usize) -> (v: Vec<char>)
    ensures
        v@ == display_spec(cell_at(row@, col as int)),
{
    if col < row.len() {
        data_display(&row[col])
    } else {
        Vec::new()
    }
}

fn date_at(row: &Vec<Cell>, col: usize) -> (r: Option<CalDate>)
    ensures
        date_tuple(r) == date_spec(cell_at(row@, col as int)),
{
    if col < row.len() {
        date_from_cell(&row[col])
    } else {
        None
    }
}

fn total_at(row: &Vec<Cell>, col: usize) -> (r: Option<i64>)
    ensures
        r matches Some(v) ==> total_spec(cell_at(row@, col as int)) == Some(v as int),
        r is None ==> total_spec(cell_at(row@, col as int)) is None,
{
    if col < row.len() {
        total_from_cell(&row[col])
    } else {
        None
    }
}

/// The customer and invoice of a data row, when the row is kept.
pub fn clean_row(row: &Vec<Cell>, cols: &ColumnMap) -> (r: Option<(String, InvoiceRow)>)
    ensures
        r is None <==> clean_row_spec(row@, *cols) is None,
        r matches Some(p) ==> clean_row_spec(row@, *cols) == Some((p.0@, row_view(p.1))),
{
    let customer = trim_chars(&display_at(row, cols.customer));
    if customer.len() == 0 {
        return None;
    }
    let invoice = trim_chars(&display_at(row, cols.invoice_no));
    if invoice.len() == 0 {
        return None;
    }
    if invoice.len() == 3 && invoice[0] == 'n' && invoice[1] == 'a' && invoice[2] == 'n' {
        assert(invoice@ =~= seq!['n', 'a', 'n']);
        return None;
    }
    assert(invoice@ != seq!['n', 'a', 'n']) by {
        if invoice@ == seq!['n', 'a', 'n'] {
            assert(invoice@.len() == 3);
        }
    }
    let date = match date_at(row, cols.invoice_date) {
        None => return None,
        Some(d) => d,
    };
    let amount = match total_at(row, cols.total) {
        None => return None,
        Some(v) => v,
    };
    if amount <= 0 {
        return None;
    }
    let label = format_date_label(date);
    Some((string_of(&customer), InvoiceRow { invoice_no: string_of(&invoice), date_label: label, amount }))
}

/// The kept entries of rows `start..end`, in row order.
pub open spec fn cleaned_entries(rows: Seq<Vec<Cell>>, cols: ColumnMap, start: int, end: int) -> Seq<
    (Seq<char>, (Seq<char>, Seq<char>, int)),
>
    decreases end - start,
{
    if end <= start {
        Seq::empty()
    } else {
        let prev = cleaned_entries(rows, cols, start, end - 1);
        match clean_row_spec(rows[end - 1]@, cols) {
            Some(e) => prev.push(e),
            None => prev,
        }
    }
}

/// Index of the first group at or after `i` named `name`.
pub open spec fn find_group(g: Seq<(Seq<char>, Seq<(Seq<char>, Seq<char>, int)>)>, name: Seq<char>, i: int) -> Option<
    int,
>
    decreases g.len() - i,
{
    if i < 0 || i >= g.len() {
        None
    } else if g[i].0 == name {
        Some(i)
    } else {
        find_group(g, name, i + 1)
    }
}

/// Entries grouped by customer, groups in order of first appearance, rows
/// within a group in entry order.
pub open spec fn group_entries(es: Seq<(Seq<char>, (Seq<char>, Seq<char>, int))>) -> Seq<
    (Seq<char>, Seq<(Seq<char>, Seq<char>, int)>),
>
    decreases es.len(),
{
    if es.len() == 0 {
        Seq::empty()
    } else {
        let g = group_entries(es.drop_last());
        let e = es.last();
        match find_group(g, e.0, 0) {
            Some(i) => g.update(i, (g[i].0, g[i].1.push(e.1))),
            None => g.push((e.0, seq![e.1])),
        }
    }
}

/// The groups as plain values.
pub open spec fn groups_view(g: Seq<(String, Vec<InvoiceRow>)>) -> Seq<(Seq<char>, Seq<(Seq<char>, Seq<char>, int)>)> {
    g.map_values(|p: (String, Vec<InvoiceRow>)| (p.0@, p.1@.map_values(|r: InvoiceRow| row_view(r))))
}

/// What loading the rows of a sheet yields.
pub open spec fn grouped_spec(rows: Seq<Vec<Cell>>) -> Result<Seq<(Seq<char>, Seq<(Seq<char>, Seq<char>, int)>)>, LoaderError> {
    match first_header(rows, 0) {
        None => Err(LoaderError::HeaderNotFound),
        Some(h) => match columns_spec(rows[h]@) {
            None => Err(LoaderError::ColumnsIncomplete),
            Some(cols) => {
                let es = cleaned_entries(rows, cols, h + 1, rows.len() as int);
                if es.len() == 0 {
                    Err(LoaderError::EmptyAfterClean)
                } else {
                    Ok(group_entries(es))
                }
            },
        }
    }
}

proof fn lemma_group_entries_nonempty(es: Seq<(Seq<char>, (Seq<char>, Seq<char>, int))>)
    requires
        es.len() > 0,
    ensures
        group_entries(es).len() > 0,
    decreases es.len(),
{
    let g = group_entries(es.drop_last());
    if es.len() > 1 {
        lemma_group_entries_nonempty(es.drop_last());
    }
    lemma_find_group(g, es.last().0, 0);
    match find_group(g, es.last().0, 0) {
        Some(i) => {
            assert(group_entries(es) == g.update(i, (g[i].0, g[i].1.push(es.last().1))));
        },
        None => {
            assert(group_entries(es) == g.push((es.last().0, seq![es.last().1])));
        },
    }
}

proof fn lemma_first_header(rows: Seq<Vec<Cell>>, i: int)
    requires
        0 <= i,
    ensures
        first_header(rows, i) matches Some(j) ==> i <= j < rows.len(),
    decreases rows.len() - i,
{
    if i < rows.len() && !is_header_row(rows[i]@) {
        lemma_first_header(rows, i + 1);
    }
}

proof fn lemma_find_group(g: Seq<(Seq<char>, Seq<(Seq<char>, Seq<char>, int)>)>, name: Seq<char>, i: int)
    requires
        0 <= i,
    ensures
        find_group(g, name, i) matches Some(j) ==> i <= j < g.len() && g[j].0 == name,
    decreases g.len() - i,
{
    if i < g.len() && g[i].0 != name {
        lemma_find_group(g, name, i + 1);
    }
}

/// Groups the invoice rows of a sheet (given as rows of cells) by customer.
pub fn load_grouped(rows: &Vec<Vec<Cell>>) -> (r: Result<GroupedData, LoaderError>)
    ensures
        match r {
            Ok(g) => grouped_spec(rows@) == Ok::<_, LoaderError>(groups_view(g.groups@)),
            Err(e) => grouped_spec(rows@) == Err::<Seq<(Seq<char>, Seq<(Seq<char>, Seq<char>, int)>)>, _>(e),
        },
{
    let header_index = match find_header_row(rows) {
        None => return Err(LoaderError::HeaderNotFound),
        Some(h) => h,
    };
    proof {
        lemma_first_header(rows@, 0);
    }
    assert(header_index < rows.len());
    let columns = match map_columns(&rows[header_index]) {
        None => return Err(LoaderError::ColumnsIncomplete),
        Some(c) => c,
    };
    let ghost start = header_index + 1;
    let mut groups: Vec<(String, Vec<InvoiceRow>)> = Vec::new();
    let mut count: usize = 0;
    let mut r: usize = header_index + 1;
    while r < rows.len()
        invariant
            start == header_index + 1,
            start <= r <= rows@.len() || (r == start && start > rows@.len()),
            header_index < rows@.len(),
            groups_view(groups@) == group_entries(cleaned_entries(rows@, columns, start, r as int)),
            count == cleaned_entries(rows@, columns, start, r as int).len(),
            count <= r,
        decreases rows@.len() - r,
    {
        let ghost es = cleaned_entries(rows@, columns, start, r as int);
        let ghost gv = groups_view(groups@);
        match clean_row(&rows[r], &columns) {
            None => {},
            Some((customer, invoice)) => {
                let ghost e = (customer@, row_view(invoice));
                let ghost es2 = es.push(e);
                assert(es2.drop_last() =~= es);
                let mut gi: usize = 0;
                while gi < groups.len() && groups[gi].0 != customer
                    invariant
                        gi <= groups@.len(),
                        gv == groups_view(groups@),
                        find_group(gv, customer@, 0) == find_group(gv, customer@, gi as int),
                    decreases groups@.len() - gi,
                {
                    gi = gi + 1;
                }
                let ghost old_groups = groups@;
                if gi < groups.len() {
                    assert(find_group(gv, customer@, gi as int) == Some(gi as int));
                    groups[gi].1.push(invoice);
                    assert(groups@.len() == old_groups.len());
                    assert(groups@[gi as int].0 == old_groups[gi as int].0);
                    assert(groups@[gi as int].1@ == old_groups[gi as int].1@.push(invoice));
                    assert(forall|t: int| 0 <= t < groups@.len() && t != gi ==> groups@[t] == old_groups[t]);
                    assert(groups@[gi as int].1@.map_values(|r: InvoiceRow| row_view(r)) =~= gv[gi as int].1.push(e.1));
                    assert(groups_view(groups@) =~= gv.update(gi as int, (gv[gi as int].0, gv[gi as int].1.push(e.1))));
                } else {
                    proof {
                        lemma_find_group(gv, customer@, 0);
                    }
                    assert(find_group(gv, customer@, 0) is None);
                    let mut members: Vec<InvoiceRow> = Vec::new();
                    members.push(invoice);
                    groups.push((customer, members));
                    assert(groups@[groups@.len() - 1].1@.map_values(|r: InvoiceRow| row_view(r)) =~= seq![e.1]);
                    assert(groups_view(groups@) =~= gv.push((e.0, seq![e.1])));
                }
                count = count + 1;
            },
        }
        r = r + 1;
    }
    if count == 0 {
        return Err(LoaderError::EmptyAfterClean);
    }
    proof {
        lemma_group_entries_nonempty(cleaned_entries(rows@, columns, start, rows@.len() as int));
    }
    Ok(GroupedData { groups })
}

/// Every entry that survives cleaning has a positive amount.
proof fn lemma_cleaned_positive(rows: Seq<Vec<Cell>>, cols: ColumnMap, start: int, end: int)
    ensures
        forall|i: int| 0 <= i < cleaned_entries(rows, cols, start, end).len() ==> (#[trigger] cleaned_entries(
            rows,
            cols,
            start,
            end,
        )[i]).1.2 > 0,
    decreases end - start,
{
    if end > start {
        lemma_cleaned_positive(rows, cols, start, end - 1);
        let prev = cleaned_entries(rows, cols, start, end - 1);
        let cur = cleaned_entries(rows, cols, start, end);
        assert forall|i: int| 0 <= i < cur.len() implies (#[trigger] cur[i]).1.2 > 0 by {
            if i < prev.len() {
                assert(cur[i] == prev[i]);
            } else {
                assert(clean_row_spec(rows[end - 1]@, cols) is Some);
            }
        }
    }
}

/// Grouping keeps every amount of the entries and adds none.
proof fn lemma_grouped_positive(es: Seq<(Seq<char>, (Seq<char>, Seq<char>, int))>)
    requires
        forall|i: int| 0 <= i < es.len() ==> (#[trigger] es[i]).1.2 > 0,
    ensures
        forall|gi: int, j: int|
            0 <= gi < group_entries(es).len() && 0 <= j < group_entries(es)[gi].1.len() ==> (#[trigger] group_entries(
                es,
            )[gi].1[j]).2 > 0,
    decreases es.len(),
{
    if es.len() > 0 {
        let d = es.drop_last();
        assert forall|i: int| 0 <= i < d.len() implies (#[trigger] d[i]).1.2 > 0 by {
            assert(d[i] == es[i]);
        }
        lemma_grouped_positive(d);
        let g = group_entries(d);
        assert(es.last().1.2 > 0);
        lemma_find_group(g, es.last().0, 0);
        match find_group(g, es.last().0, 0) {
            Some(k) => {
                let h = g.update(k, (g[k].0, g[k].1.push(es.last().1)));
                assert(group_entries(es) == h);
                assert forall|gi: int, j: int| 0 <= gi < h.len() && 0 <= j < h[gi].1.len() implies (#[trigger] h[gi].1[j]).2
                    > 0 by {
                    if gi == k && j == g[k].1.len() {
                    } else if gi == k {
                        assert(h[gi].1[j] == g[k].1[j]);
                    } else {
                        assert(h[gi] == g[gi]);
                    }
                }
            },
            None => {
                let h = g.push((es.last().0, seq![es.last().1]));
                assert(group_entries(es) == h);
                assert forall|gi: int, j: int| 0 <= gi < h.len() && 0 <= j < h[gi].1.len() implies (#[trigger] h[gi].1[j]).2
                    > 0 by {
                    if gi < g.len() {
                        assert(h[gi] == g[gi]);
                    }
                }
            },
        }
    }
}

/// Every invoice that loading a sheet yields has a positive amount, so the
/// search over a loaded sheet finds every matching combination.
pub proof fn lemma_loaded_groups_positive(rows: Seq<Vec<Cell>>, g: Seq<(String, Vec<InvoiceRow>)>)
    requires
        grouped_spec(rows) == Ok::<_, LoaderError>(groups_view(g)),
    ensures
        groups_positive(g),
{
    let h = first_header(rows, 0)->0;
    let cols = columns_spec(rows[h]@)->0;
    let es = cleaned_entries(rows, cols, h + 1, rows.len() as int);
    lemma_cleaned_positive(rows, cols, h + 1, rows.len() as int);
    lemma_grouped_positive(es);
    assert(group_entries(es) == groups_view(g));
    assert forall|gi: int| 0 <= gi < g.len() implies all_positive(#[trigger] g[gi].1@) by {
        assert forall|i: int| 0 <= i < g[gi].1@.len() implies g[gi].1@[i].amount > 0 by {
            assert(groups_view(g)[gi].1[i] == row_view(g[gi].1@[i]));
        }
    }
}

proof fn lemma_remove_commas_concat(a: Seq<char>, b: Seq<char>)
    ensures
        remove_commas(a + b) == remove_commas(a) + remove_commas(b),
    decreases b.len(),
{
    if b.len() == 0 {
        assert(a + b =~= a);
        assert(remove_commas(a) + remove_commas(b) =~= remove_commas(a));
    } else {
        lemma_remove_commas_concat(a, b.drop_last());
        assert((a + b).drop_last() =~= a + b.drop_last());
        assert((a + b).last() == b.last());
        if b.last() != ',' {
            assert(remove_commas(a) + remove_commas(b.drop_last()).push(b.last()) =~= (remove_commas(a) + remove_commas(
                b.drop_last(),
            )).push(b.last()));
        }
    }
}

proof fn lemma_remove_commas_plain(s: Seq<char>)
    requires
        forall|i: int| 0 <= i < s.len() ==> #[trigger] s[i] != ',',
    ensures
        remove_commas(s) == s,
    decreases s.len(),
{
    if s.len() > 0 {
        lemma_remove_commas_plain(s.drop_last());
        assert(s.drop_last().push(s.last()) =~= s);
    }
}

/// Removing the separators of digits grouped in thousands gives the digits.
proof fn lemma_ungroup(d: Seq<char>)
    requires
        all_digits(d),
    ensures
        remove_commas(group_thousands(d)) == d,
    decreases d.len(),
{
    if d.len() <= 3 {
        lemma_remove_commas_plain(d);
    } else {
        let head = d.subrange(0, d.len() - 3);
        let tail = d.subrange(d.len() - 3, d.len() as int);
        assert(all_digits(head));
        lemma_ungroup(head);
        lemma_remove_commas_concat(group_thousands(head) + seq![','], tail);
        lemma_remove_commas_concat(group_thousands(head), seq![',']);
        assert(remove_commas(seq![',']) =~= Seq::<char>::empty()) by {
            let c = seq![','];
            assert(c.last() == ',');
            assert(c.drop_last() =~= Seq::<char>::empty());
            assert(remove_commas(Seq::<char>::empty()) =~= Seq::<char>::empty());
        }
        lemma_remove_commas_plain(tail);
        assert(head + tail =~= d);
        assert(remove_commas(group_thousands(head)) + Seq::<char>::empty() =~= head);
    }
}

/// The decimal digits of `n` are digits and read back as `n`.
proof fn lemma_decimal_value(n: nat)
    ensures
        all_digits(decimal(n)),
        digits_value(decimal(n)) == n,
        decimal(n).len() > 0,
    decreases n,
{
    let dc = crate::text::digit_char((n % 10) as int);
    assert(dc as int == 48 + n % 10);
    if n >= 10 {
        lemma_decimal_value(n / 10);
        let s = decimal(n / 10).push(dc);
        assert(decimal(n) == s);
        assert(s.drop_last() =~= decimal(n / 10));
        assert(digits_value(s) == (n / 10) * 10 + (n % 10)) by {
            assert(s.last() == crate::text::digit_char((n % 10) as int));
        }
        assert((n / 10) * 10 + (n % 10) == n) by (nonlinear_arith);
        assert forall|i: int| 0 <= i < s.len() implies '0' <= #[trigger] s[i] && s[i] <= '9' by {
            if i < s.len() - 1 {
                assert(s[i] == decimal(n / 10)[i]);
            }
        }
    } else {
        let s = decimal(n);
        assert(s == seq![dc]);
        assert(s.drop_last() =~= Seq::<char>::empty());
        assert(digits_value(Seq::<char>::empty()) == 0);
    }
}

proof fn lemma_no_dot(s: Seq<char>)
    requires
        forall|i: int| 0 <= i < s.len() ==> #[trigger] s[i] != '.',
    ensures
        cut_at_dot(s) == s,
{
    lemma_first_dot(s, s.len() as int);
    assert(s.take(s.len() as int) =~= s);
}

proof fn lemma_trim_unspaced(s: Seq<char>)
    requires
        s.len() > 0,
        !is_space(s[0]),
        !is_space(s.last()),
    ensures
        trim(s) == s,
{
    assert(trim_start(s) == s);
}

/// A Total written with thousands separators (as the result sheet writes
/// amounts) is read back as the same amount.
pub proof fn lemma_grouped_total_reads_back(v: i64)
    ensures
        total_of_text(commas_spec(v as int)) == Some(v as int),
{
    let m: nat = if v < 0 { (-v) as nat } else { v as nat };
    let d = decimal(m);
    lemma_decimal_value(m);
    lemma_ungroup(d);
    let plain = if v < 0 { seq!['-'] + d } else { d };
    if v < 0 {
        lemma_remove_commas_concat(seq!['-'], group_thousands(d));
        lemma_remove_commas_plain(seq!['-']);
        assert(remove_commas(commas_spec(v as int)) == plain);
    } else {
        assert(remove_commas(commas_spec(v as int)) == plain);
    }
    assert forall|i: int| 0 <= i < plain.len() implies #[trigger] plain[i] != '.' by {
        if v < 0 && i > 0 {
            assert(plain[i] == d[i - 1]);
        }
    }
    lemma_no_dot(plain);
    assert(plain.last() == d.last());
    lemma_trim_unspaced(plain);
    if v < 0 {
        assert(plain.drop_first() =~= d);
    }
}

proof fn lemma_cleaned_len(rows: Seq<Vec<Cell>>, cols: ColumnMap, start: int, end: int)
    requires
        start <= end,
    ensures
        cleaned_entries(rows, cols, start, end).len() <= end - start,
    decreases end - start,
{
    if end > start {
        lemma_cleaned_len(rows, cols, start, end - 1);
    }
}

proof fn lemma_group_entries_sizes(es: Seq<(Seq<char>, (Seq<char>, Seq<char>, int))>)
    ensures
        forall|i: int| 0 <= i < group_entries(es).len() ==> (#[trigger] group_entries(es)[i]).1.len() <= es.len(),
    decreases es.len(),
{
    if es.len() > 0 {
        let g = group_entries(es.drop_last());
        lemma_group_entries_sizes(es.drop_last());
        lemma_find_group(g, es.last().0, 0);
    }
}

/// Every customer group of a loaded sheet holds fewer rows than the sheet.
pub proof fn lemma_group_sizes(rows: Seq<Vec<Cell>>)
    ensures
        grouped_spec(rows) matches Ok(gs) ==> forall|i: int|
            0 <= i < gs.len() ==> (#[trigger] gs[i]).1.len() < rows.len(),
{
    lemma_first_header(rows, 0);
    if let Some(h) = first_header(rows, 0) {
        if let Some(cols) = columns_spec(rows[h]@) {
            let es = cleaned_entries(rows, cols, h + 1, rows.len() as int);
            lemma_cleaned_len(rows, cols, h + 1, rows.len() as int);
            lemma_group_entries_sizes(es);
        }
    }
}

proof fn lemma_first_header_upto(rows: Seq<Vec<Cell>>, s: int, i: int)
    requires
        0 <= s <= i < rows.len(),
        is_header_row(rows[i]@),
    ensures
        first_header(rows, s) matches Some(h) && s <= h <= i && is_header_row(rows[h]@) && forall|r: int|
            s <= r < h ==> !is_header_row(#[trigger] rows[r]@),
    decreases i - s,
{
    if !is_header_row(rows[s]@) {
        lemma_first_header_upto(rows, s + 1, i);
    }
}

/// The header row is found by any of its cells, in any column: when some
/// cell of some row shows text containing "Nama Pelanggan", loading never
/// fails for want of a header, and the header is the first row with such a
/// cell, at or before that row.
pub proof fn lemma_header_in_any_column(rows: Seq<Vec<Cell>>, i: int, j: int)
    requires
        0 <= i < rows.len(),
        0 <= j < rows[i]@.len(),
        has_substring(display_spec(rows[i]@[j]), "Nama Pelanggan"@),
    ensures
        grouped_spec(rows) != Err::<Seq<(Seq<char>, Seq<(Seq<char>, Seq<char>, int)>)>, LoaderError>(
            LoaderError::HeaderNotFound,
        ),
        first_header(rows, 0) matches Some(h) && h <= i && (exists|c: int|
            0 <= c < rows[h]@.len() && has_substring(display_spec(#[trigger] rows[h]@[c]), "Nama Pelanggan"@))
            && forall|r: int, c: int|
            0 <= r < h && 0 <= c < rows[r]@.len() ==> !has_substring(
                display_spec(#[trigger] rows[r]@[c]),
                "Nama Pelanggan"@,
            ),
{
    assert(is_header_row(rows[i]@));
    lemma_first_header_upto(rows, 0, i);
    let h = first_header(rows, 0)->0;
    assert forall|r: int, c: int| 0 <= r < h && 0 <= c < rows[r]@.len() implies !has_substring(
        display_spec(#[trigger] rows[r]@[c]),
        "Nama Pelanggan"@,
    ) by {
        assert(!is_header_row(rows[r]@));
    }
}

/// The invoice date of a spreadsheet date-time cell that carries a calendar
/// date is that date, whatever the cell's display text.
pub proof fn lemma_date_cell_date(shown: String, d: CalDate)
    ensures
        date_spec(Cell::DateTime { shown, date: Some(d) }) == Some((d.year, d.month, d.day)),
{
}

/// The value of the two decimal digits `a`, `b`.
pub open spec fn two_digit_value(a: char, b: char) -> int {
    (a as int - '0' as int) * 10 + (b as int - '0' as int)
}

pub open spec fn is_digit_char(c: char) -> bool {
    '0' <= c && c <= '9'
}

proof fn lemma_pad2_two_digits(n: nat)
    requires
        n < 100,
    ensures
        pad2(n).len() == 2,
        is_digit_char(pad2(n)[0]) && is_digit_char(pad2(n)[1]),
        two_digit_value(pad2(n)[0], pad2(n)[1]) == n,
{
    if n < 10 {
        assert(decimal(n) == seq![crate::text::digit_char(n as int)]);
    } else {
        assert(decimal(n / 10) == seq![crate::text::digit_char((n / 10) as int)]);
        assert(decimal(n) == decimal(n / 10).push(crate::text::digit_char((n % 10) as int)));
    }
}

/// A date label is `dd/mm/` followed by the year: the day and the month are
/// each written with exactly two digits that read back as the day and the
/// month, and the year as its decimal text.
pub proof fn lemma_date_label_fields(year: i32, month: u32, day: u32)
    requires
        1 <= day <= 31,
        1 <= month <= 12,
    ensures
        ({
            let l = date_label_spec(year as int, month as nat, day as nat);
            &&& l.len() == 6 + signed_decimal(year as int).len()
            &&& is_digit_char(l[0]) && is_digit_char(l[1]) && two_digit_value(l[0], l[1]) == day
            &&& l[2] == '/'
            &&& is_digit_char(l[3]) && is_digit_char(l[4]) && two_digit_value(l[3], l[4]) == month
            &&& l[5] == '/'
            &&& l.subrange(6, l.len() as int) == signed_decimal(year as int)
        }),
{
    lemma_pad2_two_digits(day as nat);
    lemma_pad2_two_digits(month as nat);
    let l = date_label_spec(year as int, month as nat, day as nat);
    let pd = pad2(day as nat);
    let pm = pad2(month as nat);
    assert(l == pd + seq!['/'] + pm + seq!['/'] + signed_decimal(year as int));
    assert(l[0] == pd[0] && l[1] == pd[1] && l[3] == pm[0] && l[4] == pm[1]);
    assert(l.subrange(6, l.len() as int) =~= signed_decimal(year as int));
}

/// Digits grouped in thousands: a `,` stands exactly at the positions that
/// lie a multiple of four from the end, every other character is a digit,
/// and the first group holds one to three digits (so the text does not
/// start with a `,`).
pub open spec fn thousands_grouped(g: Seq<char>) -> bool {
    &&& g.len() % 4 != 0
    &&& forall|i: int| 0 <= i < g.len() ==> (#[trigger] g[i] == ',' <==> (g.len() - i) % 4 == 0)
    &&& forall|i: int| 0 <= i < g.len() && #[trigger] g[i] != ',' ==> '0' <= g[i] && g[i] <= '9'
}

proof fn lemma_grouped_shape(d: Seq<char>)
    requires
        all_digits(d),
        d.len() > 0,
    ensures
        thousands_grouped(group_thousands(d)),
    decreases d.len(),
{
    if d.len() > 3 {
        let head = d.subrange(0, d.len() - 3);
        let tail = d.subrange(d.len() - 3, d.len() as int);
        assert(all_digits(head));
        lemma_grouped_shape(head);
        let gh = group_thousands(head);
        let g = group_thousands(d);
        assert(g == gh + seq![','] + tail);
        assert forall|i: int| 0 <= i < g.len() implies (#[trigger] g[i] == ',' <==> (g.len() - i) % 4 == 0) && (g[i]
            != ',' ==> '0' <= g[i] && g[i] <= '9') by {
            if i < gh.len() {
                assert(g[i] == gh[i]);
                assert((g.len() - i) % 4 == (gh.len() - i) % 4);
            } else if i > gh.len() {
                assert(g[i] == tail[i - gh.len() - 1]);
                assert(g[i] == d[d.len() - 3 + (i - gh.len() - 1)]);
            }
        }
    }
}

/// `commas(v)` is the decimal text of `v` with thousands separators:
/// removing every `,` gives the decimal text of `v`, and after a `-` for a
/// negative value the text is digit groups joined by `,`, the first of one
/// to three digits and every other of three.
pub proof fn lemma_commas_shape(v: int)
    ensures
        remove_commas(commas_spec(v)) == signed_decimal(v),
        v < 0 ==> commas_spec(v)[0] == '-' && thousands_grouped(commas_spec(v).drop_first()),
        v >= 0 ==> thousands_grouped(commas_spec(v)),
{
    let m: nat = if v < 0 { (-v) as nat } else { v as nat };
    let d = decimal(m);
    lemma_decimal_value(m);
    lemma_ungroup(d);
    lemma_grouped_shape(d);
    if v < 0 {
        lemma_remove_commas_concat(seq!['-'], group_thousands(d));
        lemma_remove_commas_plain(seq!['-']);
        assert(commas_spec(v).drop_first() =~= group_thousands(d));
    }
}

} // verus!
