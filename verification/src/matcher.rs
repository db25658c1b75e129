//! Orchestration: search combinations for every target in every customer
//! group of a loaded sheet and collect the result rows.
use vstd::prelude::*;

use crate::combos::{is_match, total_of};
use crate::engine::{
    all_positive, amounts, combo_is_match, covers_all, find_combinations_capped, in_search_order, search_before,
    size_limit, window_fits, Combo, Deadline, InvoiceRow, SearchError,
};
use crate::loader::{grouped_spec, groups_view, lemma_group_sizes, load_grouped, Cell, GroupedData, LoaderError};
use crate::text::{chars_of, push_char};
use crate::writer::{
    build_output_path, commas, commas_spec, fresh_output_path, grid_cells, grid_fits, save_results, sheet_grid, ResultRow,
    WorkbookCells,
};

verus! {

#[derive(Debug)]
pub enum MatcherError {
    Loader(LoaderError),
    Timeout,
    /// Node budget exhausted — parameter space too wide to finish promptly.
    BudgetExceeded,
    Write(String),
}

/// What a finished run produced.
#[derive(Debug)]
pub struct RunOutcome {
    /// The result workbook, when any combination was found.
    pub output_file: Option<String>,
    pub total_rows: usize,
    /// True when the search stopped early because the result cap was hit;
    /// the produced file contains a partial set of matches.
    pub truncated: bool,
}

/// The result rows of a search over all targets and groups.
#[derive(Debug)]
pub struct MatchRun {
    pub rows: Vec<ResultRow>,
    /// True when the result cap stopped the search early.
    pub truncated: bool,
}

/// `Rp` followed by the amount with thousands separators.
pub open spec fn rp(v: int) -> Seq<char> {
    seq!['R', 'p'] + commas_spec(v)
}

/// The parts joined with `sep` between consecutive parts.
pub open spec fn join(parts: Seq<Seq<char>>, sep: Seq<char>) -> Seq<char>
    decreases parts.len(),
{
    if parts.len() == 0 {
        Seq::empty()
    } else if parts.len() == 1 {
        parts[0]
    } else {
        join(parts.drop_last(), sep) + sep + parts.last()
    }
}

pub open spec fn list_sep() -> Seq<char> {
    seq![',', ' ']
}

/// Which text of an invoice a result column lists.
#[derive(Clone, Copy, PartialEq, Eq, Structural)]
pub enum Field {
    InvoiceNo,
    Date,
    Amount,
}

pub open spec fn field_text(r: InvoiceRow, f: Field) -> Seq<char> {
    match f {
        Field::InvoiceNo => r.invoice_no@,
        Field::Date => r.date_label@,
        Field::Amount => rp(r.amount as int),
    }
}

/// The listed texts of the invoices at `indices`, joined by ", ".
pub open spec fn field_list(rows: Seq<InvoiceRow>, indices: Seq<usize>, f: Field) -> Seq<char> {
    join(indices.map_values(|i: usize| field_text(rows[i as int], f)), list_sep())
}

/// A result row as plain values.
pub type ResultView = (Seq<char>, Seq<char>, nat, Seq<char>, Seq<char>, Seq<char>, int);

pub open spec fn result_view(r: ResultRow) -> ResultView {
    (r.target@, r.customer@, r.invoice_count as nat, r.invoices@, r.dates@, r.amounts@, r.total as int)
}

/// The result row describing the invoices `indices` of a customer group for
/// a target.
pub open spec fn result_row_spec(
    target_label: Seq<char>,
    customer: Seq<char>,
    rows: Seq<InvoiceRow>,
    indices: Seq<usize>,
    total: int,
) -> ResultView {
    (
        target_label,
        customer,
        indices.len(),
        field_list(rows, indices, Field::InvoiceNo),
        field_list(rows, indices, Field::Date),
        field_list(rows, indices, Field::Amount),
        total,
    )
}

fn push_all(out: &mut Vec<char>, s: &Vec<char>)
    ensures
        final(out)@ == old(out)@ + s@,
{
    let mut i: usize = 0;
    while i < s.len()
        invariant
            i <= s@.len(),
            out@ == old(out)@ + s@.take(i as int),
        decreases s@.len() - i,
    {
        out.push(s[i]);
        assert(s@.take(i + 1) =~= s@.take(i as int).push(s@[i as int]));
        i = i + 1;
    }
    assert(s@.take(s@.len() as int) =~= s@);
}

fn rp_chars(v: i64) -> (s: Vec<char>)
    ensures
        s@ == rp(v as int),
{
    let mut out: Vec<char> = Vec::new();
    out.push('R');
    out.push('p');
    let c = commas(v);
    let cs = chars_of(c.as_str());
    push_all(&mut out, &cs);
    assert(out@ =~= seq!['R', 'p'] + commas_spec(v as int));
    out
}

/// `Rp` followed by the amount with thousands separators.
pub fn rupiah(v: i64) -> (s: String)
    ensures
        s@ == rp(v as int),
{
    crate::text::string_of(&rp_chars(v))
}

fn field_chars(r: &InvoiceRow, f: Field) -> (s: Vec<char>)
    ensures
        s@ == field_text(*r, f),
{
    match f {
        Field::InvoiceNo => chars_of(r.invoice_no.as_str()),
        Field::Date => chars_of(r.date_label.as_str()),
        Field::Amount => rp_chars(r.amount),
    }
}

fn list_field(rows: &Vec<InvoiceRow>, indices: &Vec<usize>, f: Field) -> (s: String)
    requires
        forall|j: int| 0 <= j < indices@.len() ==> #[trigger] indices@[j] < rows@.len(),
    ensures
        s@ == field_list(rows@, indices@, f),
{
    let ghost parts = indices@.map_values(|i: usize| field_text(rows@[i as int], f));
    let mut out: Vec<char> = Vec::new();
    let mut j: usize = 0;
    while j < indices.len()
        invariant
            j <= indices@.len(),
            forall|t: int| 0 <= t < indices@.len() ==> #[trigger] indices@[t] < rows@.len(),
            parts == indices@.map_values(|i: usize| field_text(rows@[i as int], f)),
            out@ == join(parts.take(j as int), list_sep()),
        decreases indices@.len() - j,
    {
        let part = field_chars(&rows[indices[j]], f);
        let ghost before = out@;
        if j > 0 {
            out.push(',');
            out.push(' ');
        }
        push_all(&mut out, &part);
        assert(parts.take(j + 1).drop_last() =~= parts.take(j as int));
        if j == 0 {
            assert(out@ =~= part@);
        } else {
            assert(out@ =~= before + list_sep() + part@);
        }
        j = j + 1;
    }
    assert(parts.take(indices@.len() as int) =~= parts);
    crate::text::string_of(&out)
}

/// The result row for one combination of a customer group.
pub fn row_to_result(combo: &Combo, customer: &String, target_label: String, group_rows: &Vec<InvoiceRow>) -> (r:
    ResultRow)
    requires
        forall|j: int| 0 <= j < combo.indices@.len() ==> #[trigger] combo.indices@[j] < group_rows@.len(),
    ensures
        result_view(r) == result_row_spec(target_label@, customer@, group_rows@, combo.indices@, combo.total as int),
{
    let invoices = list_field(group_rows, &combo.indices, Field::InvoiceNo);
    let dates = list_field(group_rows, &combo.indices, Field::Date);
    let amounts = list_field(group_rows, &combo.indices, Field::Amount);
    ResultRow {
        target: target_label,
        customer: customer.clone(),
        invoice_count: combo.indices.len(),
        invoices,
        dates,
        amounts,
        total: combo.total,
    }
}


/// Where a result row comes from: the index of its target, the index of its
/// customer group, and the invoices (indices into the group) it combines.
pub type Origin = (int, int, Seq<usize>);

/// `o` names a matching combination of one of `groups` for one of `targets`.
pub open spec fn origin_matches(
    groups: Seq<(String, Vec<InvoiceRow>)>,
    targets: Seq<i64>,
    tolerance: int,
    k: nat,
    o: Origin,
) -> bool {
    &&& 0 <= o.0 < targets.len()
    &&& 0 <= o.1 < groups.len()
    &&& is_match(amounts(groups[o.1].1@), targets[o.0] as int, tolerance, k, o.2)
}

/// The result row that describes the combination `o`.
pub open spec fn origin_row(groups: Seq<(String, Vec<InvoiceRow>)>, targets: Seq<i64>, o: Origin) -> ResultView {
    result_row_spec(
        rp(targets[o.0] as int),
        groups[o.1].0@,
        groups[o.1].1@,
        o.2,
        total_of(amounts(groups[o.1].1@), o.2),
    )
}

/// `a` comes no later than `b` when targets are taken in order, and the
/// groups in order for each target.
pub open spec fn origin_le(a: Origin, b: Origin) -> bool {
    a.0 < b.0 || (a.0 == b.0 && a.1 <= b.1)
}

/// Row `i` of `rows` describes the matching combination `origins[i]`; the
/// rows come target by target, for each target group by group, and within a
/// group in the search's order; and no combination of a group for a target
/// is described twice.
pub open spec fn explains(
    rows: Seq<ResultRow>,
    origins: Seq<Origin>,
    groups: Seq<(String, Vec<InvoiceRow>)>,
    targets: Seq<i64>,
    tolerance: int,
    k: nat,
) -> bool {
    &&& origins.len() == rows.len()
    &&& forall|i: int|
        0 <= i < rows.len() ==> origin_matches(groups, targets, tolerance, k, #[trigger] origins[i])
            && result_view(rows[i]) == origin_row(groups, targets, origins[i])
    &&& forall|i: int, j: int|
        0 <= i < j < origins.len() ==> origin_le(#[trigger] origins[i], #[trigger] origins[j]) && origins[i]
            != origins[j]
    &&& forall|i: int, j: int|
        0 <= i < j < origins.len() && (#[trigger] origins[i]).0 == (#[trigger] origins[j]).0 && origins[i].1
            == origins[j].1 ==> search_before(amounts(groups[origins[i].1].1@), origins[i].2, origins[j].2)
}

/// Every matching combination of every group for every target is among
/// `origins`.
pub open spec fn covers_every_match(
    origins: Seq<Origin>,
    groups: Seq<(String, Vec<InvoiceRow>)>,
    targets: Seq<i64>,
    tolerance: int,
    k: nat,
) -> bool {
    forall|ti: int, gi: int, s: Seq<usize>|
        0 <= ti < targets.len() && 0 <= gi < groups.len() && #[trigger] is_match(
            amounts(groups[gi].1@),
            targets[ti] as int,
            tolerance,
            k,
            s,
        ) ==> origins.contains((ti, gi, s))
}

/// Some `origins` explain `rows`, and, unless the run stopped early or a
/// group holds an amount that is not positive, they name every matching
/// combination of every group for every target.
pub open spec fn run_explained(
    rows: Seq<ResultRow>,
    truncated: bool,
    groups: Seq<(String, Vec<InvoiceRow>)>,
    targets: Seq<i64>,
    tolerance: int,
    k: nat,
) -> bool {
    exists|origins: Seq<Origin>|
        {
            &&& #[trigger] explains(rows, origins, groups, targets, tolerance, k)
            &&& (!truncated && groups_positive(groups)) ==> covers_every_match(origins, groups, targets, tolerance, k)
        }
}

/// Every invoice amount of every group is positive (what the loader keeps).
pub open spec fn groups_positive(groups: Seq<(String, Vec<InvoiceRow>)>) -> bool {
    forall|gi: int| 0 <= gi < groups.len() ==> all_positive(#[trigger] groups[gi].1@)
}

/// Most rows a run with result cap `result_cap` produces.
pub open spec fn row_cap(result_cap: usize) -> int {
    if result_cap == 0 {
        1
    } else {
        result_cap as int
    }
}

/// Appending the rows of the combinations found in group `gi` for target
/// `ti` keeps the rows explained, in order and without repetition.
proof fn lemma_append_group(
    groups: Seq<(String, Vec<InvoiceRow>)>,
    targets: Seq<i64>,
    tolerance: int,
    k: nat,
    ti: int,
    gi: int,
    before: Seq<ResultRow>,
    before_origins: Seq<Origin>,
    combos: Seq<Combo>,
    rows: Seq<ResultRow>,
    origins: Seq<Origin>,
)
    requires
        0 <= ti < targets.len(),
        0 <= gi < groups.len(),
        explains(before, before_origins, groups, targets, tolerance, k),
        forall|i: int|
            0 <= i < before_origins.len() ==> (#[trigger] before_origins[i]).0 < ti || (before_origins[i].0 == ti
                && before_origins[i].1 < gi),
        crate::engine::all_match(groups[gi].1@, targets[ti] as int, tolerance, k, combos),
        crate::engine::distinct_combos(combos),
        in_search_order(amounts(groups[gi].1@), combos),
        rows.len() == before.len() + combos.len(),
        origins.len() == rows.len(),
        forall|i: int| 0 <= i < before.len() ==> rows[i] == before[i] && origins[i] == before_origins[i],
        forall|j: int|
            0 <= j < combos.len() ==> #[trigger] result_view(rows[before.len() + j]) == result_row_spec(
                rp(targets[ti] as int),
                groups[gi].0@,
                groups[gi].1@,
                combos[j].indices@,
                combos[j].total as int,
            ) && origins[before.len() + j] == (ti, gi, combos[j].indices@),
    ensures
        explains(rows, origins, groups, targets, tolerance, k),
        forall|i: int|
            0 <= i < origins.len() ==> (#[trigger] origins[i]).0 < ti || (origins[i].0 == ti && origins[i].1 <= gi),
        forall|j: int| 0 <= j < combos.len() ==> origins.contains((ti, gi, #[trigger] combos[j].indices@)),
        forall|o: Origin| #[trigger] before_origins.contains(o) ==> origins.contains(o),
{
    let b = before.len();
    assert forall|i: int| 0 <= i < rows.len() implies origin_matches(groups, targets, tolerance, k, #[trigger] origins[i])
        && result_view(rows[i]) == origin_row(groups, targets, origins[i]) by {
        if i >= b {
            let j = i - b;
            assert(combo_is_match(groups[gi].1@, targets[ti] as int, tolerance, k, combos[j]));
            assert(result_view(rows[b + j]) == result_row_spec(
                rp(targets[ti] as int),
                groups[gi].0@,
                groups[gi].1@,
                combos[j].indices@,
                combos[j].total as int,
            ));
        } else {
            assert(origins[i] == before_origins[i]);
        }
    }
    assert forall|i: int, j: int| 0 <= i < j < origins.len() implies origin_le(
        #[trigger] origins[i],
        #[trigger] origins[j],
    ) && origins[i] != origins[j] by {
        if j < b {
            assert(origins[i] == before_origins[i] && origins[j] == before_origins[j]);
        } else if i < b {
            assert(origins[i] == before_origins[i]);
            assert(origins[b + (j - b)] == (ti, gi, combos[j - b].indices@));
        } else {
            assert(origins[b + (i - b)] == (ti, gi, combos[i - b].indices@));
            assert(origins[b + (j - b)] == (ti, gi, combos[j - b].indices@));
            assert(combos[i - b].indices@ != combos[j - b].indices@);
        }
    }
    assert forall|i: int, j: int|
        0 <= i < j < origins.len() && (#[trigger] origins[i]).0 == (#[trigger] origins[j]).0 && origins[i].1
            == origins[j].1 implies search_before(amounts(groups[origins[i].1].1@), origins[i].2, origins[j].2) by {
        if j < b {
            assert(origins[i] == before_origins[i] && origins[j] == before_origins[j]);
        } else if i < b {
            assert(origins[i] == before_origins[i]);
            assert(origins[b + (j - b)] == (ti, gi, combos[j - b].indices@));
        } else {
            assert(origins[b + (i - b)] == (ti, gi, combos[i - b].indices@));
            assert(origins[b + (j - b)] == (ti, gi, combos[j - b].indices@));
            assert(search_before(amounts(groups[gi].1@), combos[i - b].indices@, combos[j - b].indices@));
        }
    }
    assert forall|i: int| 0 <= i < origins.len() implies (#[trigger] origins[i]).0 < ti || (origins[i].0 == ti
        && origins[i].1 <= gi) by {
        if i < b {
            assert(origins[i] == before_origins[i]);
        } else {
            assert(origins[b + (i - b)] == (ti, gi, combos[i - b].indices@));
        }
    }
    assert forall|j: int| 0 <= j < combos.len() implies origins.contains((ti, gi, #[trigger] combos[j].indices@)) by {
        assert(origins[b + j] == (ti, gi, combos[j].indices@));
    }
    assert forall|o: Origin| #[trigger] before_origins.contains(o) implies origins.contains(o) by {
        let i = choose|i: int| 0 <= i < before_origins.len() && before_origins[i] == o;
        assert(origins[i] == o);
    }
}

/// Searches every customer group for every target (in that order) and
/// collects one result row per matching combination. Stops early, marking
/// the run truncated, once `result_cap` rows were collected.
pub fn run_for_targets(
    grouped: &GroupedData,
    targets: &Vec<i64>,
    tolerance: i64,
    max_invoices: usize,
    timeout_secs: u64,
    node_budget: u64,
    result_cap: usize,
) -> (res: Result<MatchRun, MatcherError>)
    requires
        forall|t: int| 0 <= t < targets@.len() ==> window_fits(#[trigger] targets@[t], tolerance),
        forall|g: int| 0 <= g < grouped.groups@.len() ==> (#[trigger] grouped.groups@[g]).1@.len() < usize::MAX,
    ensures
        res matches Ok(run) ==> run_explained(
            run.rows@,
            run.truncated,
            grouped.groups@,
            targets@,
            tolerance as int,
            size_limit(max_invoices),
        ),
        res matches Ok(run) ==> {
            &&& run.truncated ==> run.rows@.len() >= result_cap
            &&& !run.truncated ==> (run.rows@.len() < result_cap || run.rows@.len() == 0)
            &&& run.rows@.len() <= row_cap(result_cap)
        },
        (targets@.len() == 0 || grouped.groups@.len() == 0) ==> (res matches Ok(run) && run.rows@.len() == 0
            && !run.truncated),
        res matches Err(e) ==> (e is Timeout || (e is BudgetExceeded && node_budget < u64::MAX)),
{
    let ghost groups = grouped.groups@;
    let ghost tv = targets@;
    let ghost k = size_limit(max_invoices);
    let ghost tol = tolerance as int;
    let ghost mut origins: Seq<Origin> = Seq::empty();
    let deadline = Deadline::after(timeout_secs);
    let max_k = if max_invoices == 0 { 1 } else { max_invoices };
    let mut all_rows: Vec<ResultRow> = Vec::new();
    let mut truncated = false;
    let mut ti: usize = 0;
    while ti < targets.len() && !truncated
        invariant
            groups == grouped.groups@,
            tv == targets@,
            k == size_limit(max_invoices),
            tol == tolerance as int,
            max_k as nat == k,
            ti <= tv.len(),
            forall|t: int| 0 <= t < tv.len() ==> window_fits(#[trigger] tv[t], tolerance),
            forall|g: int| 0 <= g < groups.len() ==> (#[trigger] groups[g]).1@.len() < usize::MAX,
            explains(all_rows@, origins, groups, tv, tol, k),
            forall|i: int| 0 <= i < origins.len() ==> (#[trigger] origins[i]).0 < ti,
            (!truncated && groups_positive(groups)) ==> forall|t: int, g: int, s: Seq<usize>|
                0 <= t < ti && 0 <= g < groups.len() && #[trigger] is_match(amounts(groups[g].1@), tv[t] as int, tol, k, s)
                    ==> origins.contains((t, g, s)),
            truncated ==> all_rows@.len() >= result_cap,
            !truncated ==> (all_rows@.len() < result_cap || all_rows@.len() == 0),
            all_rows@.len() <= row_cap(result_cap),
            (tv.len() == 0 || groups.len() == 0) ==> (all_rows@.len() == 0 && !truncated),
        decreases tv.len() - ti + (if truncated { 0int } else { 1int }),
    {
        let target = targets[ti];
        let target_label = rupiah(target);
        let mut gi: usize = 0;
        while gi < grouped.groups.len() && !truncated
            invariant
                groups == grouped.groups@,
                tv == targets@,
                k == size_limit(max_invoices),
                tol == tolerance as int,
                max_k as nat == k,
                ti < tv.len(),
                target == tv[ti as int],
                target_label@ == rp(target as int),
                gi <= groups.len(),
                forall|t: int| 0 <= t < tv.len() ==> window_fits(#[trigger] tv[t], tolerance),
                forall|g: int| 0 <= g < groups.len() ==> (#[trigger] groups[g]).1@.len() < usize::MAX,
                explains(all_rows@, origins, groups, tv, tol, k),
                forall|i: int|
                    0 <= i < origins.len() ==> (#[trigger] origins[i]).0 < ti || (origins[i].0 == ti && origins[i].1
                        < gi),
                (!truncated && groups_positive(groups)) ==> forall|t: int, g: int, s: Seq<usize>|
                    ((0 <= t < ti && 0 <= g < groups.len()) || (t == ti && 0 <= g < gi)) && #[trigger] is_match(
                        amounts(groups[g].1@),
                        tv[t] as int,
                        tol,
                        k,
                        s,
                    ) ==> origins.contains((t, g, s)),
                truncated ==> all_rows@.len() >= result_cap,
                !truncated ==> (all_rows@.len() < result_cap || all_rows@.len() == 0),
                all_rows@.len() <= row_cap(result_cap),
                groups.len() == 0 ==> (all_rows@.len() == 0 && !truncated),
            decreases groups.len() - gi + (if truncated { 0int } else { 1int }),
        {
            let group = &grouped.groups[gi];
            let cap = if result_cap > all_rows.len() { result_cap - all_rows.len() } else { 1 };
            let search = match find_combinations_capped(
                group.1.as_slice(),
                target,
                tolerance,
                max_k,
                deadline,
                node_budget,
                cap,
            ) {
                Ok(o) => o,
                Err(SearchError::Timeout) => return Err(MatcherError::Timeout),
                Err(SearchError::BudgetExceeded) => return Err(MatcherError::BudgetExceeded),
            };
            let ghost before = all_rows@;
            let ghost before_origins = origins;
            let ghost grows = group.1@;
            assert(search.combos@.len() <= cap);
            let mut c: usize = 0;
            while c < search.combos.len()
                invariant
                    groups == grouped.groups@,
                    tv == targets@,
                    k == size_limit(max_invoices),
                    tol == tolerance as int,
                    ti < tv.len(),
                    gi < groups.len(),
                    target == tv[ti as int],
                    target_label@ == rp(target as int),
                    grows == groups[gi as int].1@,
                    *group == groups[gi as int],
                    c <= search.combos@.len(),
                    crate::engine::all_match(grows, target as int, tol, k, search.combos@),
                    all_rows@.len() == before.len() + c,
                    origins.len() == all_rows@.len(),
                    before_origins.len() == before.len(),
                    before.len() + search.combos@.len() <= row_cap(result_cap),
                    forall|i: int| 0 <= i < before.len() ==> all_rows@[i] == before[i] && origins[i] == before_origins[i],
                    forall|j: int|
                        0 <= j < c ==> #[trigger] result_view(all_rows@[before.len() + j]) == result_row_spec(
                            rp(target as int),
                            groups[gi as int].0@,
                            grows,
                            search.combos@[j].indices@,
                            search.combos@[j].total as int,
                        ),
                    forall|j: int|
                        0 <= j < c ==> #[trigger] origins[before.len() + j] == (
                            ti as int,
                            gi as int,
                            search.combos@[j].indices@,
                        ),
                decreases search.combos@.len() - c,
            {
                let combo = &search.combos[c];
                assert(combo_is_match(grows, target as int, tol, k, search.combos@[c as int]));
                let row = row_to_result(combo, &group.0, target_label.clone(), &group.1);
                all_rows.push(row);
                proof {
                    origins = origins.push((ti as int, gi as int, search.combos@[c as int].indices@));
                }
                c = c + 1;
            }
            proof {
                lemma_append_group(
                    groups,
                    tv,
                    tol,
                    k,
                    ti as int,
                    gi as int,
                    before,
                    before_origins,
                    search.combos@,
                    all_rows@,
                    origins,
                );
            }
            if search.truncated || all_rows.len() >= result_cap {
                truncated = true;
            } else {
                proof {
                    assert forall|t: int, g: int, s: Seq<usize>|
                        ((0 <= t < ti && 0 <= g < groups.len()) || (t == ti && 0 <= g < gi + 1)) && groups_positive(groups)
                            && #[trigger] is_match(amounts(groups[g].1@), tv[t] as int, tol, k, s) implies origins.contains(
                        (t, g, s),
                    ) by {
                        if t == ti && g == gi {
                            assert(all_positive(groups[gi as int].1@));
                            assert(covers_all(grows, target as int, tol, k, search.combos@));
                            let j = choose|j: int| 0 <= j < search.combos@.len() && search.combos@[j].indices@ == s;
                            assert(origins.contains((ti as int, gi as int, search.combos@[j].indices@)));
                        } else {
                            assert(before_origins.contains((t, g, s)));
                        }
                    }
                }
            }
            gi = gi + 1;
        }
        ti = ti + 1;
    }
    proof {
        if !truncated && groups_positive(groups) {
            assert forall|t: int, g: int, s: Seq<usize>|
                0 <= t < tv.len() && 0 <= g < groups.len() && #[trigger] is_match(
                    amounts(groups[g].1@),
                    tv[t] as int,
                    tol,
                    k,
                    s,
                ) implies origins.contains((t, g, s)) by {}
        }
    }
    let run = MatchRun { rows: all_rows, truncated };
    proof {
        assert(explains(
            run.rows@,
            origins,
            grouped.groups@,
            targets@,
            tolerance as int,
            size_limit(max_invoices),
        ));
        if !run.truncated && groups_positive(grouped.groups@) {
            assert(covers_every_match(origins, grouped.groups@, targets@, tolerance as int, size_limit(max_invoices)));
        }
        assert(run_explained(
            run.rows@,
            run.truncated,
            grouped.groups@,
            targets@,
            tolerance as int,
            size_limit(max_invoices),
        ));
    }
    Ok(run)
}

/// A finished run ready to be stored: the outcome to answer, and the bytes
/// of the result workbook to write at `outcome.output_file`.
pub struct PreparedRun {
    pub outcome: RunOutcome,
    pub workbook: Option<Vec<u8>>,
    /// The result rows of the run.
    pub rows: Ghost<Seq<ResultRow>>,
    /// The sheets of the workbook whose bytes are `workbook`.
    pub saved: Ghost<WorkbookCells>,
}

/// Turns the rows of a run into its outcome: nothing to store when no row
/// was found, else a fresh result file in `output_dir` and its workbook,
/// whose one sheet holds the column titles and then the rows of the run.
pub fn package_run(run: MatchRun, output_dir: &str) -> (r: Result<PreparedRun, MatcherError>)
    ensures
        run.rows@.len() == 0 ==> (r matches Ok(p) && p.outcome.output_file is None && p.outcome.total_rows == 0
            && p.outcome.truncated == run.truncated && p.workbook is None),
        run.rows@.len() > 0 && !grid_fits(sheet_grid(run.rows@)) ==> (r matches Err(e) && e is Write),
        r matches Err(e) ==> e is Write,
        r matches Ok(p) ==> p.rows@ == run.rows@,
        run.rows@.len() > 0 ==> (r matches Ok(p) ==> {
            &&& p.outcome.total_rows == run.rows@.len()
            &&& p.outcome.truncated == run.truncated
            &&& p.workbook is Some
            &&& p.saved@ == seq![grid_cells(sheet_grid(run.rows@))]
            &&& p.outcome.output_file matches Some(path) && fresh_output_path(output_dir@, path@)
        }),
{
    if run.rows.len() == 0 {
        return Ok(PreparedRun {
            outcome: RunOutcome { output_file: None, total_rows: 0, truncated: run.truncated },
            workbook: None,
            rows: Ghost(run.rows@),
            saved: Ghost(Seq::empty()),
        });
    }
    let path = build_output_path(output_dir);
    let (written, saved) = save_results(&run.rows);
    match written {
        Ok(bytes) => Ok(PreparedRun {
            outcome: RunOutcome { output_file: Some(path), total_rows: run.rows.len(), truncated: run.truncated },
            workbook: Some(bytes),
            rows: Ghost(run.rows@),
            saved,
        }),
        Err(msg) => Err(MatcherError::Write(msg)),
    }
}

/// The sheet loads as the customer groups `groups`.
pub open spec fn loads_as(sheet: Seq<Vec<Cell>>, groups: Seq<(String, Vec<InvoiceRow>)>) -> bool {
    grouped_spec(sheet) == Ok::<_, LoaderError>(groups_view(groups))
}

/// `rows` are the result rows of a run over the groups the sheet loads as,
/// explained as `run_explained` says.
pub open spec fn sheet_run_explained(
    sheet: Seq<Vec<Cell>>,
    rows: Seq<ResultRow>,
    truncated: bool,
    targets: Seq<i64>,
    tolerance: int,
    k: nat,
) -> bool {
    exists|groups: Seq<(String, Vec<InvoiceRow>)>|
        #[trigger] loads_as(sheet, groups) && run_explained(rows, truncated, groups, targets, tolerance, k)
}

/// A whole run on the rows of an uploaded sheet: loads its customer groups
/// (a loader error ends the run with that error, before any search),
/// searches every target in every group as `run_for_targets` does, and
/// prepares the result file directly inside `output_dir` as `package_run`
/// does when anything was found.
pub fn run_on_sheet(
    sheet: &Vec<Vec<Cell>>,
    targets: &Vec<i64>,
    tolerance: i64,
    max_invoices: usize,
    output_dir: &str,
    timeout_secs: u64,
    node_budget: u64,
    result_cap: usize,
) -> (r: Result<PreparedRun, MatcherError>)
    requires
        forall|t: int| 0 <= t < targets@.len() ==> window_fits(#[trigger] targets@[t], tolerance),
    ensures
        grouped_spec(sheet@) matches Err(e) ==> (r matches Err(MatcherError::Loader(le)) && le == e),
        r matches Err(MatcherError::Loader(le)) ==> grouped_spec(sheet@) == Err::<
            Seq<(Seq<char>, Seq<(Seq<char>, Seq<char>, int)>)>,
            LoaderError,
        >(le),
        r matches Ok(p) ==> {
            &&& grouped_spec(sheet@) is Ok
            &&& sheet_run_explained(
                sheet@,
                p.rows@,
                p.outcome.truncated,
                targets@,
                tolerance as int,
                size_limit(max_invoices),
            )
            &&& p.outcome.total_rows == p.rows@.len()
            &&& (p.workbook is Some ==> p.saved@ == seq![grid_cells(sheet_grid(p.rows@))])
            &&& (p.outcome.total_rows == 0 <==> p.outcome.output_file is None)
            &&& (p.outcome.total_rows == 0 <==> p.workbook is None)
            &&& (p.outcome.output_file matches Some(f) ==> fresh_output_path(output_dir@, f@))
            &&& p.outcome.truncated ==> p.outcome.total_rows >= result_cap
            &&& p.outcome.total_rows <= row_cap(result_cap)
        },
        (grouped_spec(sheet@) is Ok && targets@.len() == 0) ==> (r matches Ok(p) && p.outcome.total_rows == 0
            && p.outcome.output_file is None && !p.outcome.truncated),
        r matches Err(e) ==> (e is Loader || e is Timeout || (e is BudgetExceeded && node_budget < u64::MAX)
            || e is Write),
{
    let grouped = match load_grouped(sheet) {
        Ok(g) => g,
        Err(e) => return Err(MatcherError::Loader(e)),
    };
    let sheet_len = sheet.len();
    proof {
        lemma_group_sizes(sheet@);
        assert forall|g: int| 0 <= g < grouped.groups@.len() implies (#[trigger] grouped.groups@[g]).1@.len()
            < usize::MAX by {
            let gs = groups_view(grouped.groups@);
            assert(grouped_spec(sheet@) matches Ok(v) && v == gs);
            assert(gs[g].1 == grouped.groups@[g].1@.map_values(|r: InvoiceRow| crate::loader::row_view(r)));
            assert(gs[g].1.len() < sheet_len);
        }
    }
    let run = match run_for_targets(&grouped, targets, tolerance, max_invoices, timeout_secs, node_budget, result_cap) {
        Ok(run) => run,
        Err(e) => return Err(e),
    };
    proof {
        assert(loads_as(sheet@, grouped.groups@));
    }
    package_run(run, output_dir)
}

} // verus!
