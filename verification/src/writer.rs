//! Result workbook contents: column layout and cell text formatting, with the
//! spreadsheet formula-injection guard and `Rp{:,}` thousand separators.
use vstd::prelude::*;

use rust_xlsxwriter::{Workbook, Worksheet, XlsxError};

use chrono::Local;

use crate::matcher::{rp, rupiah};
use crate::storage::{file_name_at, is_lower_hex, join_path, join_path_exec, lemma_joined_file_name, new_uuid_simple};
use crate::text::{decimal, decimal_chars, push_char, signed_decimal, string_of};

verus! {

#[derive(Debug, Clone)]
pub struct ResultRow {
    pub target: String,
    pub customer: String,
    pub invoice_count: usize,
    pub invoices: String,
    pub dates: String,
    pub amounts: String,
    pub total: i64,
}

/// Digits with a `,` before every group of three counted from the right.
pub open spec fn group_thousands(d: Seq<char>) -> Seq<char>
    decreases d.len(),
{
    if d.len() <= 3 {
        d
    } else {
        group_thousands(d.subrange(0, d.len() - 3)) + seq![','] + d.subrange(d.len() - 3, d.len() as int)
    }
}

/// `value` with a `,` before every group of three digits counted from the
/// right (thousands separators).
pub open spec fn commas_spec(value: int) -> Seq<char> {
    if value < 0 {
        seq!['-'] + group_thousands(decimal((-value) as nat))
    } else {
        group_thousands(decimal(value as nat))
    }
}

/// Appends `group_thousands(d[..end])`.
fn push_grouped(out: &mut String, d: &Vec<char>, end: usize)
    requires
        end <= d@.len(),
    ensures
        final(out)@ == old(out)@ + group_thousands(d@.subrange(0, end as int)),
    decreases end,
{
    let ghost prefix = d@.subrange(0, end as int);
    if end <= 3 {
        let mut i: usize = 0;
        while i < end
            invariant
                i <= end,
                end <= d@.len(),
                out@ == old(out)@ + d@.subrange(0, i as int),
            decreases end - i,
        {
            push_char(out, d[i]);
            assert(d@.subrange(0, i + 1) =~= d@.subrange(0, i as int).push(d@[i as int]));
            i = i + 1;
        }
    } else {
        push_grouped(out, d, end - 3);
        push_char(out, ',');
        push_char(out, d[end - 3]);
        push_char(out, d[end - 2]);
        push_char(out, d[end - 1]);
        assert(prefix.subrange(0, prefix.len() - 3) =~= d@.subrange(0, end - 3));
        assert(prefix.subrange(prefix.len() - 3, prefix.len() as int) =~= seq![d@[end - 3], d@[end - 2], d@[end - 1]]);
        assert(out@ =~= old(out)@ + (group_thousands(d@.subrange(0, end - 3)) + seq![','] + seq![d@[end - 3], d@[end - 2], d@[end - 1]]));
    }
}

/// Inserts thousands separators.
pub fn commas(value: i64) -> (s: String)
    ensures
        s@ == commas_spec(value as int),
{
    let all = decimal_chars(value);
    let mut out = String::new();
    if value < 0 {
        push_char(&mut out, '-');
        let mut digits: Vec<char> = Vec::new();
        let mut i: usize = 1;
        while i < all.len()
            invariant
                1 <= i <= all@.len(),
                all@ == signed_decimal(value as int),
                value < 0,
                digits@ == all@.subrange(1, i as int),
            decreases all@.len() - i,
        {
            digits.push(all[i]);
            assert(all@.subrange(1, i + 1) =~= all@.subrange(1, i as int).push(all@[i as int]));
            i = i + 1;
        }
        assert(digits@ =~= decimal((-value) as nat));
        push_grouped(&mut out, &digits, digits.len());
        assert(digits@.subrange(0, digits@.len() as int) =~= digits@);
        assert(out@ =~= seq!['-'] + group_thousands(decimal((-value) as nat)));
    } else {
        push_grouped(&mut out, &all, all.len());
        assert(all@.subrange(0, all@.len() as int) =~= all@);
        assert(out@ =~= group_thousands(decimal(value as nat)));
    }
    out
}

/// Leading characters that a spreadsheet would read as the start of a formula.
pub open spec fn formula_lead(c: char) -> bool {
    c == '=' || c == '+' || c == '-' || c == '@' || c == '\t' || c == '\r'
}

/// `text`, prefixed with `'` when it starts like a formula.
pub open spec fn safe_text_spec(text: Seq<char>) -> Seq<char> {
    if text.len() > 0 && formula_lead(text[0]) {
        seq!['\''] + text
    } else {
        text
    }
}

/// Neutralises spreadsheet formula injection.
pub fn safe_excel_text(text: &str) -> (s: String)
    ensures
        s@ == safe_text_spec(text@),
        s@.len() > 0 ==> !formula_lead(s@[0]),
{
    let cs = crate::text::chars_of(text);
    let mut out = String::new();
    if cs.len() > 0 {
        let c = cs[0];
        if c == '=' || c == '+' || c == '-' || c == '@' || c == '\t' || c == '\r' {
            push_char(&mut out, '\'');
        }
    }
    let rest = string_of(&cs);
    out.append(rest.as_str());
    proof {
        if text@.len() > 0 && formula_lead(text@[0]) {
            assert(out@ =~= seq!['\''] + text@);
        } else {
            assert(out@ =~= text@);
        }
    }
    out
}

// ---------------------------------------------------------------------------
// The result workbook
// ---------------------------------------------------------------------------

#[verifier::external_type_specification]
#[verifier::external_body]
pub struct ExWorksheet(Worksheet);

#[verifier::external_type_specification]
#[verifier::external_body]
pub struct ExWorkbook(Workbook);

#[verifier::external_type_specification]
#[verifier::external_body]
pub struct ExXlsxError(XlsxError);

/// The cells a worksheet holds, by (row, column): whether the cell holds
/// text, its text, its number.
pub uninterp spec fn sheet_cells(ws: Worksheet) -> Map<(int, int), (bool, Seq<char>, int)>;

/// Rows that a worksheet can address.
pub open spec fn row_limit() -> int {
    1048576
}

/// Columns that a worksheet can address.
pub open spec fn col_limit() -> int {
    16384
}

/// Longest text a cell can hold, in UTF-16 code units.
pub open spec fn max_text_units() -> int {
    32767
}

/// Length of `s` in UTF-16 code units.
pub open spec fn utf16_len(s: Seq<char>) -> int
    decreases s.len(),
{
    if s.len() == 0 {
        0
    } else {
        utf16_len(s.drop_last()) + (if s.last() as u32 > 0xffff {
            2int
        } else {
            1int
        })
    }
}

/// The cells of an empty sheet.
pub open spec fn no_cells() -> Map<(int, int), (bool, Seq<char>, int)> {
    Map::empty()
}

/// `Worksheet::new`: a worksheet without cells.
#[verifier::external_body]
fn new_worksheet() -> (ws: Worksheet)
    ensures
        sheet_cells(ws) == no_cells(),
{
    Worksheet::new()
}

/// `Worksheet::write_string`. By the crate's source: an empty text is
/// ignored; otherwise the call fails when the cell lies outside the sheet or
/// the text is longer than a cell holds, and else stores the text in the
/// cell. A failed call stores nothing.
#[verifier::external_body]
fn write_text_cell(ws: &mut Worksheet, row: u32, col: u16, text: &str) -> (r: Result<(), XlsxError>)
    ensures
        text@.len() == 0 ==> r is Ok && sheet_cells(*final(ws)) == sheet_cells(*old(ws)),
        text@.len() > 0 ==> (r is Ok <==> (row < row_limit() && col < col_limit() && utf16_len(text@)
            <= max_text_units())),
        text@.len() > 0 && r is Ok ==> sheet_cells(*final(ws)) == sheet_cells(*old(ws)).insert(
            (row as int, col as int),
            (true, text@, 0int),
        ),
        r is Err ==> sheet_cells(*final(ws)) == sheet_cells(*old(ws)),
{
    ws.write_string(row, col, text).map(|_| ())
}

/// `Worksheet::write_number` of a `u32`. By the crate's source: the call
/// fails when the cell lies outside the sheet, storing nothing, and else
/// stores the number in the cell.
#[verifier::external_body]
fn write_count_cell(ws: &mut Worksheet, row: u32, col: u16, n: u32) -> (r: Result<(), XlsxError>)
    ensures
        r is Ok <==> (row < row_limit() && col < col_limit()),
        r is Ok ==> sheet_cells(*final(ws)) == sheet_cells(*old(ws)).insert(
            (row as int, col as int),
            (false, Seq::<char>::empty(), n as int),
        ),
        r is Err ==> sheet_cells(*final(ws)) == sheet_cells(*old(ws)),
{
    ws.write_number(row, col, n).map(|_| ())
}

/// The sheets a workbook holds, in order, each by its stored cells.
pub uninterp spec fn workbook_sheets(wb: Workbook) -> Seq<Map<(int, int), (bool, Seq<char>, int)>>;

/// `Workbook::new`: by the crate's source, a workbook without sheets.
#[verifier::external_body]
fn new_workbook() -> (wb: Workbook)
    ensures
        workbook_sheets(wb).len() == 0,
{
    Workbook::new()
}

/// `Workbook::push_worksheet`: by the crate's source, appends the sheet
/// after the others (naming it when it has no name, which leaves its cells
/// as they are).
#[verifier::external_body]
fn add_sheet(wb: &mut Workbook, ws: Worksheet)
    ensures
        workbook_sheets(*final(wb)) == workbook_sheets(*old(wb)).push(sheet_cells(ws)),
{
    wb.push_worksheet(ws);
}

/// `Workbook::save_to_buffer`: the xlsx file's bytes. Nothing is promised
/// of them; they record, among other things, the time of creation.
#[verifier::external_body]
fn save_workbook(wb: &mut Workbook) -> Result<Vec<u8>, XlsxError> {
    wb.save_to_buffer()
}

/// The message of an `XlsxError` (its `Display`). Nothing is promised of it.
#[verifier::external_body]
fn xlsx_error_text(e: &XlsxError) -> String {
    e.to_string()
}

/// A value written to one cell of the result sheet.
#[derive(Debug)]
pub enum SheetCell {
    Text(String),
    Count(u32),
}

pub open spec fn cell_view(c: SheetCell) -> (bool, Seq<char>, int) {
    match c {
        SheetCell::Text(s) => (true, s@, 0int),
        SheetCell::Count(n) => (false, Seq::empty(), n as int),
    }
}

pub open spec fn cells_view(cells: Seq<SheetCell>) -> Seq<(bool, Seq<char>, int)> {
    cells.map_values(|c: SheetCell| cell_view(c))
}

pub open spec fn text_cell(s: Seq<char>) -> (bool, Seq<char>, int) {
    (true, s, 0int)
}

/// Column titles of the result sheet.
pub open spec fn header_cells() -> Seq<(bool, Seq<char>, int)> {
    seq![
        text_cell("Target"@),
        text_cell("Pelanggan"@),
        text_cell("Jumlah Invoice"@),
        text_cell("Invoice"@),
        text_cell("Tanggal"@),
        text_cell("Nilai"@),
        text_cell("Total"@),
    ]
}

/// The cells of one result row; the count is stored as a `u32`.
pub open spec fn result_cells(r: ResultRow) -> Seq<(bool, Seq<char>, int)> {
    seq![
        text_cell(safe_text_spec(r.target@)),
        text_cell(safe_text_spec(r.customer@)),
        (false, Seq::empty(), (r.invoice_count as int) % 0x1_0000_0000),
        text_cell(safe_text_spec(r.invoices@)),
        text_cell(safe_text_spec(r.dates@)),
        text_cell(safe_text_spec(r.amounts@)),
        text_cell(rp(r.total as int)),
    ]
}

/// The rows of the result sheet: the titles, then one row per result.
pub open spec fn sheet_grid(rows: Seq<ResultRow>) -> Seq<Seq<(bool, Seq<char>, int)>> {
    seq![header_cells()] + rows.map_values(|r: ResultRow| result_cells(r))
}

/// A cell that the sheet keeps (an empty text is not stored).
pub open spec fn stored(c: (bool, Seq<char>, int)) -> bool {
    !c.0 || c.1.len() > 0
}

/// The stored cells of `grid` in its rows before `r`, and in row `r`
/// before column `c`.
pub open spec fn grid_cells_before(grid: Seq<Seq<(bool, Seq<char>, int)>>, r: int, c: int) -> Map<
    (int, int),
    (bool, Seq<char>, int),
> {
    Map::new(
        |k: (int, int)|
            0 <= k.0 < grid.len() && 0 <= k.1 < grid[k.0].len() && (k.0 < r || (k.0 == r && k.1 < c))
                && stored(grid[k.0][k.1]),
        |k: (int, int)| grid[k.0][k.1],
    )
}

/// The stored cells of `grid`.
pub open spec fn grid_cells(grid: Seq<Seq<(bool, Seq<char>, int)>>) -> Map<(int, int), (bool, Seq<char>, int)> {
    grid_cells_before(grid, grid.len() as int, 0)
}

/// Every text of `row` fits in a cell.
pub open spec fn texts_fit(row: Seq<(bool, Seq<char>, int)>) -> bool {
    forall|c: int| 0 <= c < row.len() ==> (#[trigger] row[c]).0 ==> utf16_len(row[c].1) <= max_text_units()
}

/// A worksheet can hold `grid`: its rows are addressable and its texts fit.
pub open spec fn grid_fits(grid: Seq<Seq<(bool, Seq<char>, int)>>) -> bool {
    &&& grid.len() <= row_limit()
    &&& forall|r: int| 0 <= r < grid.len() ==> texts_fit(#[trigger] grid[r])
}

/// The result sheet's columns hold what their titles say: row 0 holds the
/// titles Target, Pelanggan, Jumlah Invoice, Invoice, Tanggal, Nilai, Total;
/// the row below them for result `i` holds its target, customer, invoice
/// count, invoice list, date list and amount list (texts guarded against
/// formulas), and its total as `Rp` with separators. Each non-empty text
/// is stored at that place of the sheet.
pub proof fn lemma_result_columns(rows: Seq<ResultRow>, i: int)
    requires
        0 <= i < rows.len(),
    ensures
        ({
            let g = sheet_grid(rows);
            let r = rows[i];
            &&& g.len() == rows.len() + 1
            &&& g[0] == seq![
                (true, "Target"@, 0int),
                (true, "Pelanggan"@, 0int),
                (true, "Jumlah Invoice"@, 0int),
                (true, "Invoice"@, 0int),
                (true, "Tanggal"@, 0int),
                (true, "Nilai"@, 0int),
                (true, "Total"@, 0int),
            ]
            &&& g[i + 1].len() == 7
            &&& g[i + 1][0] == (true, safe_text_spec(r.target@), 0int)
            &&& g[i + 1][1] == (true, safe_text_spec(r.customer@), 0int)
            &&& g[i + 1][2] == (false, Seq::<char>::empty(), (r.invoice_count as int) % 0x1_0000_0000)
            &&& g[i + 1][3] == (true, safe_text_spec(r.invoices@), 0int)
            &&& g[i + 1][4] == (true, safe_text_spec(r.dates@), 0int)
            &&& g[i + 1][5] == (true, safe_text_spec(r.amounts@), 0int)
            &&& g[i + 1][6] == (true, rp(r.total as int), 0int)
        }),
        safe_text_spec(rows[i].dates@).len() > 0 ==> grid_cells(sheet_grid(rows)).contains_key((i + 1, 4))
            && grid_cells(sheet_grid(rows))[(i + 1, 4)] == (true, safe_text_spec(rows[i].dates@), 0int),
        safe_text_spec(rows[i].amounts@).len() > 0 ==> grid_cells(sheet_grid(rows)).contains_key((i + 1, 5))
            && grid_cells(sheet_grid(rows))[(i + 1, 5)] == (true, safe_text_spec(rows[i].amounts@), 0int),
{
    let g = sheet_grid(rows);
    assert(g[i + 1] == result_cells(rows[i]));
    assert(g[0] =~= seq![
        (true, "Target"@, 0int),
        (true, "Pelanggan"@, 0int),
        (true, "Jumlah Invoice"@, 0int),
        (true, "Invoice"@, 0int),
        (true, "Tanggal"@, 0int),
        (true, "Nilai"@, 0int),
        (true, "Total"@, 0int),
    ]);
}

/// Writes the seven `cells` of grid row `r` into sheet row `row`, stopping at
/// the first failure.
fn write_row_cells(
    ws: &mut Worksheet,
    row: u32,
    cells: &Vec<SheetCell>,
    Ghost(grid): Ghost<Seq<Seq<(bool, Seq<char>, int)>>>,
    Ghost(r): Ghost<int>,
) -> (res: Result<(), XlsxError>)
    requires
        0 <= r < grid.len(),
        (r < row_limit() && row as int == r) || (r >= row_limit() && row as int == row_limit()),
        cells@.len() == 7,
        cells_view(cells@) == grid[r],
        r >= row_limit() ==> exists|j: int| 0 <= j < 7 && (#[trigger] cells@[j]) is Count,
        sheet_cells(*old(ws)) == grid_cells_before(grid, r, 0),
    ensures
        res is Ok <==> (r < row_limit() && texts_fit(grid[r])),
        res is Ok ==> sheet_cells(*final(ws)) == grid_cells_before(grid, r, 7),
{
    let ghost rv = grid[r];
    let mut c: usize = 0;
    while c < 7
        invariant
            0 <= r < grid.len(),
            (r < row_limit() && row as int == r) || (r >= row_limit() && row as int == row_limit()),
            cells@.len() == 7,
            rv == grid[r],
            cells_view(cells@) == rv,
            r >= row_limit() ==> exists|j: int| 0 <= j < 7 && (#[trigger] cells@[j]) is Count,
            c <= 7,
            sheet_cells(*ws) == grid_cells_before(grid, r, c as int),
            forall|j: int| 0 <= j < c ==> (#[trigger] rv[j]).0 ==> utf16_len(rv[j].1) <= max_text_units(),
            r >= row_limit() ==> forall|j: int| 0 <= j < c ==> (#[trigger] cells@[j]) is Text && rv[j].1.len() == 0,
        decreases 7 - c,
    {
        assert(rv[c as int] == cell_view(cells@[c as int]));
        let ghost before = sheet_cells(*ws);
        let res = match &cells[c] {
            SheetCell::Text(s) => write_text_cell(ws, row, c as u16, s.as_str()),
            SheetCell::Count(n) => write_count_cell(ws, row, c as u16, *n),
        };
        match res {
            Ok(()) => {},
            Err(e) => {
                proof {
                    assert(!texts_fit(rv) || r >= row_limit());
                }
                return Err(e);
            },
        }
        assert(grid_cells_before(grid, r, c + 1) =~= (if stored(rv[c as int]) {
            before.insert((r, c as int), rv[c as int])
        } else {
            before
        }));
        c = c + 1;
    }
    proof {
        if r >= row_limit() {
            let j = choose|j: int| 0 <= j < 7 && (#[trigger] cells@[j]) is Count;
            assert(cells@[j] is Text);
        }
    }
    Ok(())
}

/// The text cells of the header row.
fn header_row() -> (cells: Vec<SheetCell>)
    ensures
        cells@.len() == 7,
        cells_view(cells@) == header_cells(),
{
    let mut cells: Vec<SheetCell> = Vec::new();
    cells.push(SheetCell::Text(String::from_str("Target")));
    cells.push(SheetCell::Text(String::from_str("Pelanggan")));
    cells.push(SheetCell::Text(String::from_str("Jumlah Invoice")));
    cells.push(SheetCell::Text(String::from_str("Invoice")));
    cells.push(SheetCell::Text(String::from_str("Tanggal")));
    cells.push(SheetCell::Text(String::from_str("Nilai")));
    cells.push(SheetCell::Text(String::from_str("Total")));
    assert(cells_view(cells@) =~= header_cells());
    cells
}

/// The cells of one result row.
fn result_row(row: &ResultRow) -> (cells: Vec<SheetCell>)
    ensures
        cells@.len() == 7,
        cells_view(cells@) == result_cells(*row),
        cells@[2] is Count,
{
    let count = (row.invoice_count as u64 % 0x1_0000_0000) as u32;
    let mut cells: Vec<SheetCell> = Vec::new();
    cells.push(SheetCell::Text(safe_excel_text(row.target.as_str())));
    cells.push(SheetCell::Text(safe_excel_text(row.customer.as_str())));
    cells.push(SheetCell::Count(count));
    cells.push(SheetCell::Text(safe_excel_text(row.invoices.as_str())));
    cells.push(SheetCell::Text(safe_excel_text(row.dates.as_str())));
    cells.push(SheetCell::Text(safe_excel_text(row.amounts.as_str())));
    cells.push(SheetCell::Text(rupiah(row.total)));
    assert(cells_view(cells@) =~= result_cells(*row));
    cells
}

/// The result sheet: a row of column titles, then one row per result with
/// formula-guarded texts. Fails when the sheet cannot hold the rows.
pub fn results_sheet(rows: &Vec<ResultRow>) -> (res: Result<Worksheet, XlsxError>)
    ensures
        res is Ok <==> grid_fits(sheet_grid(rows@)),
        res matches Ok(ws) ==> sheet_cells(ws) == grid_cells(sheet_grid(rows@)),
{
    let ghost grid = sheet_grid(rows@);
    assert(grid[0] == header_cells());
    assert forall|r: int| 0 <= r < grid.len() implies (#[trigger] grid[r]).len() == 7 by {
        if r > 0 {
            assert(grid[r] == result_cells(rows@[r - 1]));
        }
    }
    let mut ws = new_worksheet();
    assert(grid_cells_before(grid, 0, 0) =~= no_cells());
    let header = header_row();
    match write_row_cells(&mut ws, 0, &header, Ghost(grid), Ghost(0)) {
        Ok(()) => {},
        Err(e) => {
            assert(!texts_fit(grid[0]));
            assert(!grid_fits(grid));
            return Err(e);
        },
    }
    assert(grid_cells_before(grid, 0, 7) =~= grid_cells_before(grid, 1, 0));
    let mut i: usize = 0;
    while i < rows.len()
        invariant
            i <= rows@.len(),
            grid == sheet_grid(rows@),
            grid.len() == rows@.len() + 1,
            forall|r: int| 0 <= r < grid.len() ==> (#[trigger] grid[r]).len() == 7,
            sheet_cells(ws) == grid_cells_before(grid, i + 1, 0),
            forall|r: int| 0 <= r <= i ==> r < row_limit() && texts_fit(#[trigger] grid[r]),
        decreases rows@.len() - i,
    {
        let cells = result_row(&rows[i]);
        assert(grid[i + 1] == result_cells(rows@[i as int]));
        let row: u32 = if i + 1 < 1048576 {
            (i + 1) as u32
        } else {
            1048576
        };
        match write_row_cells(&mut ws, row, &cells, Ghost(grid), Ghost(i + 1)) {
            Ok(()) => {},
            Err(e) => {
                assert(!grid_fits(grid));
                return Err(e);
            },
        }
        assert(grid_cells_before(grid, i + 1, 7) =~= grid_cells_before(grid, i + 2, 0));
        i = i + 1;
    }
    assert(i == rows@.len());
    assert(texts_fit(grid[i as int]));
    assert(i < row_limit());
    assert(grid_fits(grid));
    Ok(ws)
}

/// The result workbook: a single sheet, filled as `results_sheet` fills it.
/// Fails when the sheet cannot hold the rows.
pub fn results_workbook(rows: &Vec<ResultRow>) -> (res: Result<Workbook, XlsxError>)
    ensures
        res is Ok <==> grid_fits(sheet_grid(rows@)),
        res matches Ok(wb) ==> workbook_sheets(wb) == seq![grid_cells(sheet_grid(rows@))],
{
    let ws = results_sheet(rows)?;
    let ghost cells = sheet_cells(ws);
    let mut wb = new_workbook();
    add_sheet(&mut wb, ws);
    assert(workbook_sheets(wb) =~= seq![cells]);
    Ok(wb)
}

/// The stored cells of each sheet of a workbook, in order.
pub type WorkbookCells = Seq<Map<(int, int), (bool, Seq<char>, int)>>;

/// Saves the result workbook that `results_workbook` builds; beside the
/// outcome, the sheets of the workbook that was handed to the save. Fails,
/// with the writer's message, when the sheet cannot hold the rows or the
/// workbook cannot be written.
pub(crate) fn save_results(rows: &Vec<ResultRow>) -> (r: (Result<Vec<u8>, String>, Ghost<WorkbookCells>))
    ensures
        !grid_fits(sheet_grid(rows@)) ==> r.0 is Err,
        r.0 is Ok ==> r.1@ == seq![grid_cells(sheet_grid(rows@))],
{
    match results_workbook(rows) {
        Ok(mut wb) => {
            let saved = Ghost(workbook_sheets(wb));
            match save_workbook(&mut wb) {
                Ok(bytes) => (Ok(bytes), saved),
                Err(e) => (Err(xlsx_error_text(&e)), saved),
            }
        },
        Err(e) => (Err(xlsx_error_text(&e)), Ghost(Seq::empty())),
    }
}

/// The bytes of the result workbook that `results_workbook` builds. Fails,
/// with the writer's message, when the sheet cannot hold the rows or the
/// workbook cannot be written.
pub fn write_results(rows: &Vec<ResultRow>) -> (res: Result<Vec<u8>, String>)
    ensures
        !grid_fits(sheet_grid(rows@)) ==> res is Err,
{
    save_results(rows).0
}

/// A character of a rendered time stamp: a digit, the `_` between date and
/// time, or the sign that chrono puts before a year outside 0..=9999.
pub open spec fn stamp_char(c: char) -> bool {
    ('0' <= c && c <= '9') || c == '_' || c == '+' || c == '-'
}

/// The chrono format of the time stamp in result file names: day, month,
/// year, `_`, hour, minute, second.
pub fn stamp_format() -> (f: &'static str)
    ensures
        f@ == "%d%m%Y_%H%M%S"@,
{
    "%d%m%Y_%H%M%S"
}

/// The local time as `Local::now().format(format)` renders it, for the
/// format of `stamp_format` (another format could hold a specifier that
/// chrono refuses, which makes the rendering panic). By chrono's
/// documentation of these specifiers every field is a zero-padded number,
/// and `%Y` puts a sign before a year outside 0..=9999; so the text holds
/// only digits, `_`, `+` and `-`. Which time it shows is not stated.
#[verifier::external_body]
fn local_timestamp(format: &str) -> (s: String)
    requires
        format@ == "%d%m%Y_%H%M%S"@,
    ensures
        forall|i: int| 0 <= i < s@.len() ==> #[trigger] stamp_char(s@[i]),
{
    Local::now().format(format).to_string()
}

/// Name of a result workbook made at time `stamp` with identifier `id`.
pub open spec fn output_file_name(stamp: Seq<char>, id: Seq<char>) -> Seq<char> {
    "hasil_kombinasi_invoice_"@ + stamp + seq!['_'] + id + ".xlsx"@
}

/// The result file names a workbook of `output_dir` may get: a stamp of
/// time-stamp characters and 32 lowercase hex digits.
pub open spec fn fresh_output_path(output_dir: Seq<char>, p: Seq<char>) -> bool {
    exists|stamp: Seq<char>, id: Seq<char>|
        {
            &&& forall|i: int| 0 <= i < stamp.len() ==> #[trigger] stamp_char(stamp[i])
            &&& id.len() == 32
            &&& forall|i: int| 0 <= i < 32 ==> #[trigger] is_lower_hex(id[i])
            &&& p == join_path(output_dir, output_file_name(stamp, id))
            &&& file_name_at(p, p.len() as int) == Some(output_file_name(stamp, id))
        }
}

/// A result file name holds no `/` and is neither `.` nor `..`.
proof fn lemma_output_name_plain(stamp: Seq<char>, id: Seq<char>)
    requires
        forall|i: int| 0 <= i < stamp.len() ==> #[trigger] stamp_char(stamp[i]),
        forall|i: int| 0 <= i < id.len() ==> #[trigger] is_lower_hex(id[i]),
    ensures
        forall|i: int| 0 <= i < output_file_name(stamp, id).len() ==> output_file_name(stamp, id)[i] != '/',
        output_file_name(stamp, id).len() > 2,
{
    reveal_strlit("hasil_kombinasi_invoice_");
    reveal_strlit(".xlsx");
    let pre = "hasil_kombinasi_invoice_"@;
    let ext = ".xlsx"@;
    let n = output_file_name(stamp, id);
    let a = pre.len() + stamp.len();
    let b = a + 1 + id.len();
    assert forall|i: int| 0 <= i < n.len() implies n[i] != '/' by {
        if i < pre.len() {
            assert(n[i] == pre[i]);
        } else if i < a {
            assert(n[i] == stamp[i - pre.len()]);
            assert(stamp_char(stamp[i - pre.len()]));
        } else if i == a {
            assert(n[i] == '_');
        } else if i < b {
            assert(n[i] == id[i - a - 1]);
            assert(is_lower_hex(id[i - a - 1]));
        } else {
            assert(n[i] == ext[i - b]);
        }
    }
}

/// A fresh location for a result workbook directly inside `output_dir`,
/// named after the local time and a random identifier of 32 lowercase hex
/// digits.
pub fn build_output_path(output_dir: &str) -> (p: String)
    ensures
        fresh_output_path(output_dir@, p@),
{
    let stamp = local_timestamp(stamp_format());
    let id = new_uuid_simple();
    let mut name = String::from_str("hasil_kombinasi_invoice_");
    name.append(stamp.as_str());
    push_char(&mut name, '_');
    name.append(id.as_str());
    name.append(".xlsx");
    assert(name@ =~= output_file_name(stamp@, id@));
    let p = join_path_exec(output_dir, name.as_str());
    proof {
        lemma_output_name_plain(stamp@, id@);
        let n = output_file_name(stamp@, id@);
        assert(n != seq!['.']) by {
            assert(n.len() != seq!['.'].len());
        }
        assert(n != seq!['.', '.']) by {
            assert(n.len() != seq!['.', '.'].len());
        }
        lemma_joined_file_name(output_dir@, n);
    }
    p
}

} // verus!
