//! Combination search engine.
//!
//! A depth-first branch-and-bound over invoice amounts sorted in descending
//! order. With strictly positive amounts, partial sums grow monotonically, so
//! two cheap prunes never discard a valid combination:
//!
//! 1. sum prune   – once the running total exceeds `target + tolerance`,
//!                  taking this invoice can never re-enter the window.
//! 2. reach prune – if even the largest remaining invoices cannot lift the
//!                  running total to `target - tolerance`, the branch is dead.
//!
//! The result set is therefore the same as an exhaustive enumeration; only the
//! traversal order differs.
use vstd::prelude::*;
use std::time::Instant;

use crate::combos::{
    bounded_by, increasing, is_match, lemma_increasing_len, lemma_total_concat, lemma_total_first,
    lemma_increasing_no_dup, lemma_increasing_same_members_equal, lemma_same_members_same_total,
    lemma_total_push, same_members, total_of,
};

verus! {

#[verifier::external_type_specification]
#[verifier::external_body]
pub struct ExInstant(Instant);

/// Reads the monotonic clock (`Instant::now`). Nothing is promised of the value.
#[verifier::external_body]
fn clock_now() -> Instant {
    Instant::now()
}

/// `start + seconds` on the monotonic clock (`Instant::checked_add`), or `None`
/// when the platform cannot represent that instant. Nothing else is promised.
#[verifier::external_body]
fn instant_after_secs(start: Instant, seconds: u64) -> Option<Instant> {
    start.checked_add(std::time::Duration::from_secs(seconds))
}

/// `a >= b` on the monotonic clock (`Instant`'s `PartialOrd`). Nothing is
/// promised of the result.
#[verifier::external_body]
fn instant_not_before(a: &Instant, b: &Instant) -> bool {
    *a >= *b
}

#[derive(Debug, Clone)]
pub struct InvoiceRow {
    pub invoice_no: String,
    pub date_label: String,
    pub amount: i64,
}

#[derive(Debug, Clone)]
pub struct Combo {
    /// Row indices of the invoices in the combination, ascending.
    pub indices: Vec<usize>,
    pub total: i64,
}

/// Cooperative deadline checked every few thousand explored nodes so long
/// searches abort cleanly instead of blocking the worker forever.
#[derive(Debug, Clone, Copy)]
pub struct Deadline {
    at: Option<Instant>,
}

impl Deadline {
    /// Whether this deadline lies beyond what the clock can represent, so that
    /// it never passes.
    pub closed spec fn never_expires(&self) -> bool {
        self.at is None
    }

    /// A deadline `seconds` from now.
    pub fn after(seconds: u64) -> (d: Deadline) {
        Deadline { at: instant_after_secs(clock_now(), seconds) }
    }

    /// A deadline at the given instant.
    pub fn at_instant(at: Instant) -> (d: Deadline)
        ensures
            !d.never_expires(),
    {
        Deadline { at: Some(at) }
    }

    /// Whether the deadline has passed.
    pub fn expired(&self) -> (r: bool)
        ensures
            self.never_expires() ==> !r,
    {
        match &self.at {
            None => false,
            Some(at) => {
                let now = clock_now();
                instant_not_before(&now, at)
            },
        }
    }
}

#[derive(Debug, Clone, Copy, PartialEq, Eq)]
pub enum SearchError {
    Timeout,
    /// The node budget was used up before the search finished.
    BudgetExceeded,
}

#[derive(Debug, Clone)]
pub struct SearchOutcome {
    pub combos: Vec<Combo>,
    /// True when the search stopped early because the result cap was hit.
    pub truncated: bool,
}

// ---------------------------------------------------------------------------
// Specification over rows
// ---------------------------------------------------------------------------

/// The invoice amounts of `rows`, in row order.
pub open spec fn amounts(rows: Seq<InvoiceRow>) -> Seq<int> {
    rows.map_values(|r: InvoiceRow| r.amount as int)
}

/// A requested limit of 0 is raised to 1 (as a run does with its combination
/// size, and a capped search with its result cap).
pub open spec fn size_limit(max_invoices: usize) -> nat {
    if max_invoices == 0 {
        1
    } else {
        max_invoices as nat
    }
}

/// Both ends of the tolerance window fit in an `i64`.
pub open spec fn window_fits(target: i64, tolerance: i64) -> bool {
    &&& i64::MIN <= target - tolerance <= i64::MAX
    &&& i64::MIN <= target + tolerance <= i64::MAX
}

/// Every invoice amount is strictly positive.
pub open spec fn all_positive(rows: Seq<InvoiceRow>) -> bool {
    forall|i: int| 0 <= i < rows.len() ==> rows[i].amount > 0
}

/// `c` is a matching combination of `rows` and carries its own total.
pub open spec fn combo_is_match(
    rows: Seq<InvoiceRow>,
    target: int,
    tolerance: int,
    k: nat,
    c: Combo,
) -> bool {
    &&& is_match(amounts(rows), target, tolerance, k, c.indices@)
    &&& c.total == total_of(amounts(rows), c.indices@)
}

/// Every combination in `cs` matches.
pub open spec fn all_match(rows: Seq<InvoiceRow>, target: int, tolerance: int, k: nat, cs: Seq<Combo>) -> bool {
    forall|i: int| 0 <= i < cs.len() ==> combo_is_match(rows, target, tolerance, k, #[trigger] cs[i])
}

/// No two combinations in `cs` name the same invoices.
pub open spec fn distinct_combos(cs: Seq<Combo>) -> bool {
    forall|i: int, j: int| 0 <= i < j < cs.len() ==> cs[i].indices@ != cs[j].indices@
}

/// Every matching combination of `rows` appears in `cs`.
pub open spec fn covers_all(rows: Seq<InvoiceRow>, target: int, tolerance: int, k: nat, cs: Seq<Combo>) -> bool {
    forall|s: Seq<usize>| #[trigger] is_match(amounts(rows), target, tolerance, k, s)
        ==> exists|i: int| 0 <= i < cs.len() && cs[i].indices@ == s
}

// ---------------------------------------------------------------------------
// Model of the search over positions of the amount-sorted order
// ---------------------------------------------------------------------------

/// Row indices of the positions `q` in the order `pi`.
pub open spec fn image(pi: Seq<usize>, q: Seq<usize>) -> Seq<usize> {
    q.map_values(|p: usize| pi[p as int])
}

/// `pi` lists every index below `n` exactly once.
pub open spec fn is_permutation(pi: Seq<usize>, n: nat) -> bool {
    &&& pi.len() == n
    &&& forall|p: int| 0 <= p < pi.len() ==> pi[p] < n
    &&& forall|p: int, r: int| 0 <= p < pi.len() && 0 <= r < pi.len() && p != r ==> pi[p] != pi[r]
    &&& forall|x: usize| x < n ==> #[trigger] pi.contains(x)
}

/// The amounts along `pi` never increase.
pub open spec fn descending(a: Seq<int>, pi: Seq<usize>) -> bool {
    forall|p: int, r: int| 0 <= p <= r < pi.len() ==> a[pi[p] as int] >= a[pi[r] as int]
}

pub open spec fn positive(a: Seq<int>) -> bool {
    forall|i: int| 0 <= i < a.len() ==> a[i] > 0
}

/// Sum of the amounts at positions `q..` of `pi`.
pub open spec fn suffix(a: Seq<int>, pi: Seq<usize>, q: int) -> int
    decreases pi.len() - q,
{
    if q < 0 || q >= pi.len() {
        0
    } else {
        a[pi[q] as int] + suffix(a, pi, q + 1)
    }
}

/// Sum of the amounts at the (at most) `m` positions `q, q + 1, ...` of `pi`.
pub open spec fn top(a: Seq<int>, pi: Seq<usize>, q: int, m: nat) -> int
    decreases m,
{
    if m == 0 || q < 0 || q >= pi.len() {
        0
    } else {
        a[pi[q] as int] + top(a, pi, q + 1, (m - 1) as nat)
    }
}

/// `f` extends the position prefix `q` with positions at or after `pos`.
pub open spec fn extends(f: Seq<usize>, q: Seq<usize>, pos: int) -> bool {
    &&& f.len() >= q.len()
    &&& f.subrange(0, q.len() as int) == q
    &&& forall|j: int| q.len() <= j < f.len() ==> f[j] >= pos
}

/// `s` comes before `t` in lexicographic order: at the first place where
/// they differ `s` holds the smaller value, or `s` is a proper prefix of `t`.
pub open spec fn lex_lt(s: Seq<usize>, t: Seq<usize>) -> bool {
    exists|j: int|
        0 <= j <= s.len() && j <= t.len() && #[trigger] s.subrange(0, j) == t.subrange(0, j) && ((j == s.len() && j
            < t.len()) || (j < s.len() && j < t.len() && s[j] < t[j]))
}

/// Each entry of `f` comes before every later one.
pub open spec fn lex_sorted(f: Seq<Seq<usize>>) -> bool {
    forall|i: int, j: int| 0 <= i < j < f.len() ==> lex_lt(#[trigger] f[i], #[trigger] f[j])
}

/// `pi` orders the indices of `a` by descending amount, equal amounts in
/// index order.
pub open spec fn amount_order(a: Seq<int>, pi: Seq<usize>) -> bool {
    &&& is_permutation(pi, a.len())
    &&& forall|p: int, r: int|
        0 <= p < r < pi.len() ==> a[#[trigger] pi[p] as int] > a[#[trigger] pi[r] as int] || (a[pi[p] as int]
            == a[pi[r] as int] && pi[p] < pi[r])
}

/// The combination `s1` comes before the combination `s2` in the search's
/// order: with the indices ranked by descending amount (equal amounts in
/// index order), the ranks of `s1`, ascending, come lexicographically before
/// those of `s2`.
pub open spec fn search_before(a: Seq<int>, s1: Seq<usize>, s2: Seq<usize>) -> bool {
    exists|pi: Seq<usize>, q1: Seq<usize>, q2: Seq<usize>|
        #![trigger amount_order(a, pi), lex_lt(q1, q2)]
        {
            &&& amount_order(a, pi)
            &&& increasing(q1)
            &&& increasing(q2)
            &&& bounded_by(q1, pi.len() as int)
            &&& bounded_by(q2, pi.len() as int)
            &&& same_members(image(pi, q1), s1)
            &&& same_members(image(pi, q2), s2)
            &&& lex_lt(q1, q2)
        }
}

/// Consecutive combinations of `cs` come in the search's order.
pub open spec fn in_search_order(a: Seq<int>, cs: Seq<Combo>) -> bool {
    forall|t: int, u: int|
        0 <= t < u < cs.len() ==> search_before(a, #[trigger] cs[t].indices@, #[trigger] cs[u].indices@)
}

proof fn lemma_lex_prefix(q: Seq<usize>, x: usize)
    ensures
        lex_lt(q, q.push(x)),
{
    let j = q.len() as int;
    assert(q.subrange(0, j) =~= q.push(x).subrange(0, j));
}

proof fn lemma_lex_extend(e: Seq<usize>, q: Seq<usize>, x: usize)
    requires
        lex_lt(e, q),
    ensures
        lex_lt(e, q.push(x)),
{
    let j = choose|j: int|
        0 <= j <= e.len() && j <= q.len() && #[trigger] e.subrange(0, j) == q.subrange(0, j) && ((j == e.len() && j
            < q.len()) || (j < e.len() && j < q.len() && e[j] < q[j]));
    assert(q.push(x).subrange(0, j) =~= q.subrange(0, j));
    assert(e.subrange(0, j) == q.push(x).subrange(0, j));
}

proof fn lemma_lex_raise(e: Seq<usize>, q: Seq<usize>, x: usize, y: usize)
    requires
        lex_lt(e, q.push(x)),
        x <= y,
    ensures
        lex_lt(e, q.push(y)),
{
    let t = q.push(x);
    let j = choose|j: int|
        0 <= j <= e.len() && j <= t.len() && #[trigger] e.subrange(0, j) == t.subrange(0, j) && ((j == e.len() && j
            < t.len()) || (j < e.len() && j < t.len() && e[j] < t[j]));
    assert(j <= q.len());
    assert(q.push(y).subrange(0, j) =~= q.subrange(0, j));
    assert(t.subrange(0, j) =~= q.subrange(0, j));
    assert(e.subrange(0, j) == q.push(y).subrange(0, j));
}

proof fn lemma_lex_child(e: Seq<usize>, q: Seq<usize>, x: usize)
    requires
        e.len() > q.len(),
        e.subrange(0, q.len() + 1 as int) == q.push(x),
        x < usize::MAX,
    ensures
        lex_lt(e, q.push((x + 1) as usize)),
{
    let j = q.len() as int;
    assert(e.subrange(0, j) =~= q.push(x).subrange(0, j));
    assert(q.push(x).subrange(0, j) =~= q);
    assert(q.push((x + 1) as usize).subrange(0, j) =~= q);
    assert(e[j] == e.subrange(0, j + 1)[j]);
}

/// Appending an entry that every entry comes before keeps the order.
proof fn lemma_lex_sorted_push(f: Seq<Seq<usize>>, x: Seq<usize>)
    requires
        lex_sorted(f),
        forall|i: int| 0 <= i < f.len() ==> lex_lt(#[trigger] f[i], x),
    ensures
        lex_sorted(f.push(x)),
{
    assert forall|i: int, j: int| 0 <= i < j < f.push(x).len() implies lex_lt(
        #[trigger] f.push(x)[i],
        #[trigger] f.push(x)[j],
    ) by {
        assert(f.push(x)[i] == f[i]);
        if j < f.len() {
            assert(f.push(x)[j] == f[j]);
        }
    }
}

/// Smallest position `p < m` with `pi[p]` in `s`, in ascending order.
pub open spec fn positions_of(pi: Seq<usize>, s: Seq<usize>, m: int) -> Seq<usize>
    decreases m,
{
    if m <= 0 {
        Seq::empty()
    } else if s.contains(pi[m - 1]) {
        positions_of(pi, s, m - 1).push((m - 1) as usize)
    } else {
        positions_of(pi, s, m - 1)
    }
}

/// The largest magnitude of an `i64` amount.
pub open spec fn amount_bound() -> int {
    0x8000_0000_0000_0000
}

/// `count` amounts of largest magnitude.
pub open spec fn scaled_bound(count: int) -> int {
    count * 0x8000_0000_0000_0000
}

pub proof fn lemma_image_push(pi: Seq<usize>, q: Seq<usize>, p: usize)
    ensures
        image(pi, q.push(p)) == image(pi, q).push(pi[p as int]),
{
    assert(image(pi, q.push(p)) =~= image(pi, q).push(pi[p as int]));
}

pub proof fn lemma_image_concat(pi: Seq<usize>, q: Seq<usize>, r: Seq<usize>)
    ensures
        image(pi, q + r) == image(pi, q) + image(pi, r),
{
    assert(image(pi, q + r) =~= image(pi, q) + image(pi, r));
}

/// Totals of positive amounts are not negative.
pub proof fn lemma_total_nonneg(a: Seq<int>, s: Seq<usize>)
    requires
        positive(a),
        bounded_by(s, a.len() as int),
    ensures
        total_of(a, s) >= 0,
    decreases s.len(),
{
    if s.len() > 0 {
        lemma_total_nonneg(a, s.drop_last());
        assert(s[s.len() - 1] < a.len());
    }
}

/// A total over `s` is bounded by `|s|` times the largest amount magnitude.
pub proof fn lemma_total_bound(a: Seq<int>, s: Seq<usize>)
    requires
        bounded_by(s, a.len() as int),
        forall|i: int| 0 <= i < a.len() ==> -amount_bound() <= #[trigger] a[i] <= amount_bound(),
    ensures
        -scaled_bound(s.len() as int) <= total_of(a, s) <= scaled_bound(s.len() as int),
    decreases s.len(),
{
    if s.len() > 0 {
        lemma_total_bound(a, s.drop_last());
        let x = s[s.len() - 1];
        assert(-amount_bound() <= a[x as int] <= amount_bound());
    }
}

pub proof fn lemma_suffix_bound(a: Seq<int>, pi: Seq<usize>, q: int)
    requires
        0 <= q <= pi.len(),
        forall|p: int| 0 <= p < pi.len() ==> pi[p] < a.len(),
        forall|i: int| 0 <= i < a.len() ==> -amount_bound() <= #[trigger] a[i] <= amount_bound(),
    ensures
        -scaled_bound(pi.len() - q) <= suffix(a, pi, q) <= scaled_bound(pi.len() - q),
    decreases pi.len() - q,
{
    if q < pi.len() {
        lemma_suffix_bound(a, pi, q + 1);
        assert(-amount_bound() <= a[pi[q] as int] <= amount_bound());
    }
}

pub proof fn lemma_top_bound(a: Seq<int>, pi: Seq<usize>, q: int, m: nat)
    requires
        0 <= q <= pi.len(),
        forall|p: int| 0 <= p < pi.len() ==> pi[p] < a.len(),
        forall|i: int| 0 <= i < a.len() ==> -amount_bound() <= #[trigger] a[i] <= amount_bound(),
    ensures
        -scaled_bound(pi.len() - q) <= top(a, pi, q, m) <= scaled_bound(pi.len() - q),
    decreases m,
{
    if m > 0 && q < pi.len() {
        lemma_top_bound(a, pi, q + 1, (m - 1) as nat);
        assert(-amount_bound() <= a[pi[q] as int] <= amount_bound());
    }
}

/// The difference of two suffix sums is the sum of the window between them.
pub proof fn lemma_suffix_top(a: Seq<int>, pi: Seq<usize>, q: int, m: nat)
    requires
        0 <= q <= pi.len(),
    ensures
        suffix(a, pi, q) - suffix(a, pi, if q + m < pi.len() { q + m } else { pi.len() as int })
            == top(a, pi, q, m),
    decreases m,
{
    if m > 0 && q < pi.len() {
        lemma_suffix_top(a, pi, q + 1, (m - 1) as nat);
    }
}

pub proof fn lemma_top_nonneg(a: Seq<int>, pi: Seq<usize>, q: int, m: nat)
    requires
        positive(a),
        forall|p: int| 0 <= p < pi.len() ==> pi[p] < a.len(),
    ensures
        top(a, pi, q, m) >= 0,
    decreases m,
{
    if m > 0 && 0 <= q < pi.len() {
        lemma_top_nonneg(a, pi, q + 1, (m - 1) as nat);
    }
}

/// With descending amounts, the window starting one later is no larger.
pub proof fn lemma_top_step(a: Seq<int>, pi: Seq<usize>, q: int, m: nat)
    requires
        0 <= q,
        positive(a),
        descending(a, pi),
        forall|p: int| 0 <= p < pi.len() ==> pi[p] < a.len(),
    ensures
        top(a, pi, q + 1, m) <= top(a, pi, q, m),
    decreases m,
{
    if m == 0 {
    } else if q + 1 >= pi.len() {
        lemma_top_nonneg(a, pi, q, m);
    } else {
        lemma_top_step(a, pi, q + 1, (m - 1) as nat);
        assert(a[pi[q] as int] >= a[pi[q + 1] as int]);
    }
}

pub proof fn lemma_top_monotone(a: Seq<int>, pi: Seq<usize>, q0: int, q1: int, m: nat)
    requires
        0 <= q0 <= q1,
        positive(a),
        descending(a, pi),
        forall|p: int| 0 <= p < pi.len() ==> pi[p] < a.len(),
    ensures
        top(a, pi, q1, m) <= top(a, pi, q0, m),
    decreases q1 - q0,
{
    if q0 < q1 {
        lemma_top_monotone(a, pi, q0, q1 - 1, m);
        lemma_top_step(a, pi, q1 - 1, m);
    }
}

/// Any `m` or fewer positions at or after `q0` total at most the window of
/// `m` positions starting at `q0`.
pub proof fn lemma_top_bounds_choices(a: Seq<int>, pi: Seq<usize>, r: Seq<usize>, q0: int, m: nat)
    requires
        0 <= q0,
        positive(a),
        descending(a, pi),
        forall|p: int| 0 <= p < pi.len() ==> pi[p] < a.len(),
        increasing(r),
        forall|j: int| 0 <= j < r.len() ==> q0 <= #[trigger] r[j] < pi.len(),
        r.len() <= m,
    ensures
        total_of(a, image(pi, r)) <= top(a, pi, q0, m),
    decreases r.len(),
{
    if r.len() == 0 {
        assert(image(pi, r) =~= Seq::<usize>::empty());
        lemma_top_nonneg(a, pi, q0, m);
    } else {
        let x = r[0] as int;
        let rest = r.drop_first();
        assert forall|j: int| 0 <= j < rest.len() implies x + 1 <= #[trigger] rest[j] < pi.len() by {
            assert(r[0] < r[j + 1]);
        }
        lemma_top_bounds_choices(a, pi, rest, x + 1, (m - 1) as nat);
        lemma_total_first(a, image(pi, r));
        assert(image(pi, r).drop_first() =~= image(pi, rest));
        lemma_top_monotone(a, pi, q0, x, m);
    }
}

pub proof fn lemma_positions_of(pi: Seq<usize>, s: Seq<usize>, m: int)
    requires
        0 <= m <= pi.len(),
        pi.len() <= usize::MAX,
    ensures
        increasing(positions_of(pi, s, m)),
        bounded_by(positions_of(pi, s, m), m),
        forall|p: usize| #[trigger] positions_of(pi, s, m).contains(p) <==> (p < m && s.contains(pi[p as int])),
    decreases m,
{
    if m > 0 {
        lemma_positions_of(pi, s, m - 1);
        let prev = positions_of(pi, s, m - 1);
        if s.contains(pi[m - 1]) {
            let cur = prev.push((m - 1) as usize);
            assert forall|i: int, j: int| 0 <= i < j < cur.len() implies cur[i] < cur[j] by {
                if j < prev.len() {
                    assert(prev[i] < prev[j]);
                } else {
                    assert(prev[i] < m - 1);
                }
            }
            assert forall|p: usize| cur.contains(p) <==> (p < m && s.contains(pi[p as int])) by {
                if p == (m - 1) as usize {
                    assert(cur[cur.len() - 1] == p);
                } else if prev.contains(p) {
                    let i = choose|i: int| 0 <= i < prev.len() && prev[i] == p;
                    assert(cur[i] == p);
                } else if cur.contains(p) {
                    let i = choose|i: int| 0 <= i < cur.len() && cur[i] == p;
                    if i < prev.len() {
                        assert(prev[i] == p);
                    }
                }
            }
        }
    }
}


// ---------------------------------------------------------------------------
// Orders
// ---------------------------------------------------------------------------

/// Row indices ordered by descending amount (equal amounts keep row order).
fn order_by_amount_desc(rows: &[InvoiceRow]) -> (v: Vec<usize>)
    ensures
        is_permutation(v@, rows@.len()),
        descending(amounts(rows@), v@),
        amount_order(amounts(rows@), v@),
{
    let ghost a = amounts(rows@);
    let n = rows.len();
    let mut v: Vec<usize> = Vec::new();
    let mut i: usize = 0;
    while i < n
        invariant
            a == amounts(rows@),
            n == rows@.len(),
            i <= n,
            v@.len() == i,
            forall|p: int| 0 <= p < v@.len() ==> v@[p] < i,
            forall|p: int, r: int| 0 <= p < v@.len() && 0 <= r < v@.len() && p != r ==> v@[p] != v@[r],
            forall|x: usize| x < i ==> #[trigger] v@.contains(x),
            descending(a, v@),
            forall|t: int, r: int|
                0 <= t < r < v@.len() ==> a[#[trigger] v@[t] as int] > a[#[trigger] v@[r] as int] || (a[v@[t] as int]
                    == a[v@[r] as int] && v@[t] < v@[r]),
        decreases n - i,
    {
        let amt = rows[i].amount;
        let mut p: usize = 0;
        while p < v.len() && rows[v[p]].amount >= amt
            invariant
                a == amounts(rows@),
                n == rows@.len(),
                i < n,
                p <= v@.len(),
                forall|t: int| 0 <= t < v@.len() ==> v@[t] < i,
                forall|t: int| 0 <= t < p ==> a[v@[t] as int] >= amt,
            decreases v@.len() - p,
        {
            p = p + 1;
        }
        let ghost old_v = v@;
        assert(forall|t: int| p <= t < old_v.len() ==> a[old_v[t] as int] < amt) by {
            assert forall|t: int| p <= t < old_v.len() implies a[old_v[t] as int] < amt by {
                assert(a[old_v[p as int] as int] < amt);
                assert(a[old_v[p as int] as int] >= a[old_v[t] as int]);
            }
        }
        v.insert(p, i);
        assert forall|x: usize| x < i + 1 implies #[trigger] v@.contains(x) by {
            if x == i {
                assert(v@[p as int] == x);
            } else {
                assert(old_v.contains(x));
                let t = choose|t: int| 0 <= t < old_v.len() && old_v[t] == x;
                if t < p {
                    assert(v@[t] == x);
                } else {
                    assert(v@[t + 1] == x);
                }
            }
        }
        assert forall|t: int, r: int| 0 <= t <= r < v@.len() implies a[v@[t] as int] >= a[v@[r] as int] by {
            if t < p && r < p {
                assert(v@[t] == old_v[t] && v@[r] == old_v[r]);
            } else if t < p && r == p {
                assert(v@[t] == old_v[t]);
            } else if t < p && r > p {
                assert(v@[t] == old_v[t] && v@[r] == old_v[r - 1]);
            } else if t == p && r > p {
                assert(v@[r] == old_v[r - 1]);
            } else if t > p {
                assert(v@[t] == old_v[t - 1] && v@[r] == old_v[r - 1]);
            }
        }
        assert forall|t: int, r: int| 0 <= t < r < v@.len() implies a[#[trigger] v@[t] as int] > a[
            #[trigger] v@[r] as int] || (a[v@[t] as int] == a[v@[r] as int] && v@[t] < v@[r]) by {
            if t < p && r < p {
                assert(v@[t] == old_v[t] && v@[r] == old_v[r]);
            } else if t < p && r == p {
                assert(v@[t] == old_v[t]);
            } else if t < p && r > p {
                assert(v@[t] == old_v[t] && v@[r] == old_v[r - 1]);
            } else if t == p && r > p {
                assert(v@[r] == old_v[r - 1]);
            } else if t > p {
                assert(v@[t] == old_v[t - 1] && v@[r] == old_v[r - 1]);
            }
        }
        i = i + 1;
    }
    v
}

/// The elements of `v` in ascending order.
fn ascending_copy(v: &Vec<usize>) -> (r: Vec<usize>)
    requires
        v@.no_duplicates(),
    ensures
        increasing(r@),
        same_members(r@, v@),
        r@.len() == v@.len(),
{
    let mut r: Vec<usize> = Vec::new();
    let mut j: usize = 0;
    while j < v.len()
        invariant
            v@.no_duplicates(),
            j <= v@.len(),
            r@.len() == j,
            increasing(r@),
            forall|y: usize| r@.contains(y) <==> v@.take(j as int).contains(y),
        decreases v@.len() - j,
    {
        let x = v[j];
        let mut p: usize = 0;
        while p < r.len() && r[p] < x
            invariant
                p <= r@.len(),
                forall|t: int| 0 <= t < p ==> r@[t] < x,
            decreases r@.len() - p,
        {
            p = p + 1;
        }
        let ghost old_r = r@;
        assert(!old_r.contains(x)) by {
            if old_r.contains(x) {
                assert(v@.take(j as int).contains(x));
                let t = choose|t: int| 0 <= t < j && v@.take(j as int)[t] == x;
                assert(v@[t] == v@[j as int]);
            }
        }
        assert(forall|t: int| p <= t < old_r.len() ==> old_r[t] > x) by {
            assert forall|t: int| p <= t < old_r.len() implies old_r[t] > x by {
                assert(old_r[p as int] >= x);
                assert(old_r[p as int] != x);
                if t > p {
                    assert(old_r[p as int] < old_r[t]);
                }
            }
        }
        r.insert(p, x);
        assert forall|a: int, b: int| 0 <= a < b < r@.len() implies r@[a] < r@[b] by {
            if b < p {
                assert(r@[a] == old_r[a] && r@[b] == old_r[b]);
            } else if b == p {
                assert(r@[a] == old_r[a]);
            } else if a < p {
                assert(r@[a] == old_r[a] && r@[b] == old_r[b - 1]);
            } else if a == p {
                assert(r@[b] == old_r[b - 1]);
            } else {
                assert(r@[a] == old_r[a - 1] && r@[b] == old_r[b - 1]);
            }
        }
        let ghost next_take = v@.take(j + 1);
        assert forall|y: usize| r@.contains(y) <==> next_take.contains(y) by {
            if r@.contains(y) {
                let t = choose|t: int| 0 <= t < r@.len() && r@[t] == y;
                if t == p {
                    assert(next_take[j as int] == y);
                } else {
                    let u = if t < p { t } else { t - 1 };
                    assert(old_r[u] == y);
                    assert(old_r.contains(y));
                    let w = choose|w: int| 0 <= w < j && v@.take(j as int)[w] == y;
                    assert(next_take[w] == y);
                }
            }
            if next_take.contains(y) {
                let w = choose|w: int| 0 <= w < next_take.len() && next_take[w] == y;
                if w == j {
                    assert(r@[p as int] == y);
                } else {
                    assert(v@.take(j as int)[w] == y);
                    assert(old_r.contains(y));
                    let t = choose|t: int| 0 <= t < old_r.len() && old_r[t] == y;
                    if t < p {
                        assert(r@[t] == y);
                    } else {
                        assert(r@[t + 1] == y);
                    }
                }
            }
        }
        j = j + 1;
    }
    assert(v@.take(v@.len() as int) =~= v@);
    r
}


// ---------------------------------------------------------------------------
// The search
// ---------------------------------------------------------------------------

/// `q + r` is a valid extension of the position prefix `q` by positions at
/// or after `pos`: a combination of at most `k` invoices whose total lies in
/// `[lo, hi]`.
pub open spec fn ext_valid(
    a: Seq<int>,
    pi: Seq<usize>,
    lo: int,
    hi: int,
    k: int,
    q: Seq<usize>,
    r: Seq<usize>,
    pos: int,
) -> bool {
    &&& increasing(r)
    &&& forall|j: int| 0 <= j < r.len() ==> pos <= #[trigger] r[j] < pi.len()
    &&& q.len() + r.len() <= k
    &&& q.len() + r.len() >= 1
    &&& lo <= total_of(a, image(pi, q + r)) <= hi
}

proof fn lemma_image_no_dup(pi: Seq<usize>, q: Seq<usize>, n: nat)
    requires
        is_permutation(pi, n),
        increasing(q),
        bounded_by(q, n as int),
    ensures
        image(pi, q).no_duplicates(),
        bounded_by(image(pi, q), n as int),
        image(pi, q).len() == q.len(),
{
    let im = image(pi, q);
    assert forall|i: int, j: int| 0 <= i < im.len() && 0 <= j < im.len() && i != j implies im[i] != im[j] by {
        if i < j {
            assert(q[i] < q[j]);
        } else {
            assert(q[j] < q[i]);
        }
    }
}

const CHECK_EVERY: u64 = 4096;

/// The node count after counting one more node (it stops at `u64::MAX`).
pub open spec fn counted(n: u64) -> u64 {
    if n < u64::MAX {
        (n + 1) as u64
    } else {
        n
    }
}

struct Search<'a> {
    rows: &'a [InvoiceRow],
    /// row indices by descending amount
    sorted: Vec<usize>,
    /// reach[q] = sum of the amounts at sorted positions q.., for reach pruning
    reach: Vec<i128>,
    lo: i128,
    hi: i128,
    max_invoices: usize,
    deadline: Deadline,
    nodes: u64,
    node_budget: u64,
    limit: Option<usize>,
    out: Vec<Combo>,
    /// the position sequence behind each combination in `out`
    found: Ghost<Seq<Seq<usize>>>,
}

impl<'a> Search<'a> {
    spec fn a(&self) -> Seq<int> {
        amounts(self.rows@)
    }

    spec fn n(&self) -> int {
        self.rows@.len() as int
    }

    spec fn entry_ok(&self, f: Seq<usize>, c: Combo) -> bool {
        &&& increasing(f)
        &&& bounded_by(f, self.n())
        &&& 1 <= f.len() <= self.max_invoices
        &&& self.lo <= total_of(self.a(), image(self.sorted@, f)) <= self.hi
        &&& increasing(c.indices@)
        &&& same_members(c.indices@, image(self.sorted@, f))
        &&& c.total == total_of(self.a(), image(self.sorted@, f))
    }

    spec fn wf(&self) -> bool {
        &&& is_permutation(self.sorted@, self.rows@.len())
        &&& descending(self.a(), self.sorted@)
        &&& self.rows@.len() < usize::MAX
        &&& self.reach@.len() == self.n() + 1
        &&& forall|q: int| 0 <= q <= self.n() ==> #[trigger] self.reach@[q] == suffix(self.a(), self.sorted@, q)
        &&& i64::MIN <= self.lo
        &&& self.hi <= i64::MAX
        &&& self.max_invoices >= 1
        &&& self.out@.len() == self.found@.len()
        &&& forall|i: int| 0 <= i < self.out@.len() ==> self.entry_ok(self.found@[i], #[trigger] self.out@[i])
        &&& forall|i: int, j: int| 0 <= i < j < self.found@.len() ==> self.found@[i] != self.found@[j]
        &&& (self.limit matches Some(c) ==> c >= 1)
    }

    spec fn same_config(&self, other: &Self) -> bool {
        &&& self.rows == other.rows
        &&& self.sorted == other.sorted
        &&& self.reach == other.reach
        &&& self.lo == other.lo
        &&& self.hi == other.hi
        &&& self.max_invoices == other.max_invoices
        &&& self.node_budget == other.node_budget
        &&& self.limit == other.limit
        &&& self.deadline == other.deadline
    }

    /// Counts one explored node; checks the deadline every few thousand nodes
    /// and the node budget every time.
    fn check_deadline(&mut self) -> (r: Result<(), SearchError>)
        ensures
            final(self).same_config(old(self)),
            final(self).out == old(self).out,
            final(self).found == old(self).found,
            r matches Err(e) ==> (e == SearchError::BudgetExceeded ==> old(self).node_budget < u64::MAX),
            r matches Err(e) ==> (e == SearchError::Timeout ==> !old(self).deadline.never_expires()),
            final(self).nodes == counted(old(self).nodes),
            r is Ok ==> counted(old(self).nodes) <= old(self).node_budget,
            r matches Err(e) ==> (e == SearchError::BudgetExceeded ==> counted(old(self).nodes) > old(self).node_budget),
            r matches Err(e) ==> (e == SearchError::Timeout ==> old(self).nodes % CHECK_EVERY == 0),
            (old(self).nodes % CHECK_EVERY != 0 || old(self).deadline.never_expires()) ==> (r is Ok <==> counted(
                old(self).nodes,
            ) <= old(self).node_budget),
    {
        let n = self.nodes;
        let explored = if n < u64::MAX { n + 1 } else { n };
        self.nodes = explored;
        if n % CHECK_EVERY == 0 && self.deadline.expired() {
            return Err(SearchError::Timeout);
        }
        if explored > self.node_budget {
            return Err(SearchError::BudgetExceeded);
        }
        Ok(())
    }

    /// Explores every extension of the chosen position prefix `q` by sorted
    /// positions at or after `pos`, recording each combination whose total
    /// lies in the window. Returns `Ok(false)` when the result cap stopped
    /// the search.
    fn dfs(
        &mut self,
        pos: usize,
        depth: usize,
        sum: i128,
        chosen: &mut Vec<usize>,
        Ghost(q): Ghost<Seq<usize>>,
    ) -> (res: Result<bool, SearchError>)
        requires
            old(self).wf(),
            pos <= old(self).n(),
            increasing(q),
            forall|j: int| 0 <= j < q.len() ==> #[trigger] q[j] < pos,
            depth == q.len(),
            depth <= old(self).max_invoices,
            old(chosen)@ == image(old(self).sorted@, q),
            sum == total_of(old(self).a(), image(old(self).sorted@, q)),
            forall|i: int| 0 <= i < old(self).found@.len() ==> !extends(#[trigger] old(self).found@[i], q, pos as int),
            old(self).limit matches Some(c) ==> old(self).out@.len() < c,
            lex_sorted(old(self).found@),
            forall|i: int| 0 <= i < old(self).found@.len() ==> lex_lt(#[trigger] old(self).found@[i], q),
        ensures
            final(self).wf(),
            lex_sorted(final(self).found@),
            final(self).same_config(old(self)),
            final(chosen)@ == old(chosen)@,
            final(self).found@.len() >= old(self).found@.len(),
            final(self).found@.subrange(0, old(self).found@.len() as int) == old(self).found@,
            forall|i: int| old(self).found@.len() <= i < final(self).found@.len()
                ==> extends(#[trigger] final(self).found@[i], q, pos as int),
            res matches Err(e) ==> (e == SearchError::BudgetExceeded ==> old(self).node_budget < u64::MAX),
            res matches Err(e) ==> (e == SearchError::Timeout ==> !old(self).deadline.never_expires()),
            res matches Ok(true) ==> (old(self).limit matches Some(c) ==> final(self).out@.len() < c),
            res matches Ok(false) ==> (old(self).limit matches Some(c) && final(self).out@.len() == c),
            (res matches Ok(true) && positive(old(self).a())) ==> forall|r: Seq<usize>|
                #[trigger] ext_valid(old(self).a(), old(self).sorted@, old(self).lo as int, old(self).hi as int,
                    old(self).max_invoices as int, q, r, pos as int) ==> final(self).found@.contains(q + r),
        decreases old(self).n() - pos,
    {
        let ghost a = self.a();
        let ghost pi = self.sorted@;
        let ghost lo = self.lo as int;
        let ghost hi = self.hi as int;
        let ghost k = self.max_invoices as int;
        let ghost nn = self.n();
        let ghost start = self.found@;
        match self.check_deadline() {
            Err(e) => {
                assert(self.found@.subrange(0, start.len() as int) =~= start);
                return Err(e);
            },
            Ok(()) => {},
        }
        assert(bounded_by(q, nn)) by {
            assert forall|j: int| 0 <= j < q.len() implies q[j] < nn by {
                assert(q[j] < pos);
            }
        }
        proof {
            lemma_image_no_dup(pi, q, nn as nat);
        }
        if depth > 0 && self.lo <= sum && sum <= self.hi {
            let indices = ascending_copy(chosen);
            let total = sum as i64;
            let ghost before = self.found@;
            self.out.push(Combo { indices, total });
            proof {
                lemma_lex_sorted_push(self.found@, q);
                self.found@ = self.found@.push(q);
                assert(extends(q, q, pos as int)) by {
                    assert(q.subrange(0, q.len() as int) =~= q);
                }
                assert forall|i: int| 0 <= i < self.out@.len() implies self.entry_ok(self.found@[i], #[trigger] self.out@[i]) by {
                    if i < before.len() {
                        assert(self.found@[i] == before[i]);
                    }
                }
                assert forall|i: int, j: int| 0 <= i < j < self.found@.len() implies self.found@[i] != self.found@[j] by {
                    if j == before.len() {
                        assert(!extends(before[i], q, pos as int));
                    } else {
                        assert(self.found@[i] == before[i] && self.found@[j] == before[j]);
                    }
                }
                assert(self.found@.subrange(0, start.len() as int) =~= start);
            }
            match self.limit {
                Some(c) => {
                    if self.out.len() >= c {
                        return Ok(false);
                    }
                },
                None => {},
            }
        }
        let ghost emitted = self.found@;
        assert(emitted.subrange(0, start.len() as int) =~= start);
        assert(forall|i: int| start.len() <= i < emitted.len() ==> emitted[i] == q);
        assert(ext_valid(a, pi, lo, hi, k, q, Seq::empty(), pos as int) ==> emitted.contains(q)) by {
            if ext_valid(a, pi, lo, hi, k, q, Seq::empty(), pos as int) {
                assert(q + Seq::<usize>::empty() =~= q);
                assert(emitted[emitted.len() - 1] == q);
            }
        }
        if pos >= self.sorted.len() || depth >= self.max_invoices {
            proof {
                assert forall|r: Seq<usize>| #[trigger] ext_valid(a, pi, lo, hi, k, q, r, pos as int)
                    implies self.found@.contains(q + r) by {
                    if r.len() > 0 {
                        assert(pos <= r[0] < pi.len());
                    }
                    assert(r =~= Seq::<usize>::empty());
                }
            }
            return Ok(true);
        }
        proof {
            assert forall|i: int| 0 <= i < self.found@.len() implies lex_lt(#[trigger] self.found@[i], q.push(pos)) by {
                if i < start.len() {
                    assert(self.found@[i] == emitted.subrange(0, start.len() as int)[i]);
                    lemma_lex_extend(self.found@[i], q, pos);
                } else {
                    assert(self.found@[i] == q);
                    lemma_lex_prefix(q, pos);
                }
            }
        }
        let n = self.sorted.len();
        let mut idx = pos;
        let mut stop = false;
        while idx < n && !stop
            invariant
                self.wf(),
                self.same_config(old(self)),
                a == self.a(),
                pi == self.sorted@,
                lo == self.lo,
                hi == self.hi,
                k == self.max_invoices,
                nn == self.n(),
                n == nn,
                n == pi.len(),
                pos <= idx <= n,
                depth == q.len(),
                depth < k,
                increasing(q),
                bounded_by(q, nn),
                forall|j: int| 0 <= j < q.len() ==> #[trigger] q[j] < pos,
                chosen@ == image(pi, q),
                sum == total_of(a, image(pi, q)),
                self.found@.len() >= emitted.len(),
                self.found@.subrange(0, emitted.len() as int) == emitted,
                start.len() <= emitted.len(),
                start == old(self).found@,
                old(chosen)@ == image(pi, q),
                a == old(self).a(),
                pi == old(self).sorted@,
                lo == old(self).lo,
                hi == old(self).hi,
                k == old(self).max_invoices,
                emitted.subrange(0, start.len() as int) == start,
                forall|i: int| start.len() <= i < emitted.len() ==> extends(#[trigger] emitted[i], q, pos as int),
                forall|i: int| start.len() <= i < emitted.len() ==> #[trigger] emitted[i] == q,
                stop ==> (positive(a) ==> forall|r: Seq<usize>|
                    #[trigger] ext_valid(a, pi, lo, hi, k, q, r, pos as int) && r.len() > 0 ==> r[0] < idx),
                forall|i: int| 0 <= i < start.len() ==> !extends(#[trigger] start[i], q, pos as int),
                forall|i: int| emitted.len() <= i < self.found@.len() ==> {
                    &&& extends(#[trigger] self.found@[i], q, pos as int)
                    &&& self.found@[i].len() > q.len()
                    &&& self.found@[i][q.len() as int] < idx
                },
                self.limit matches Some(c) ==> self.out@.len() < c,
                ext_valid(a, pi, lo, hi, k, q, Seq::empty(), pos as int) ==> emitted.contains(q),
                positive(a) ==> forall|r: Seq<usize>|
                    #[trigger] ext_valid(a, pi, lo, hi, k, q, r, pos as int) && r.len() > 0 && r[0] < idx
                        ==> self.found@.contains(q + r),
                lex_sorted(self.found@),
                forall|i: int| 0 <= i < self.found@.len() ==> lex_lt(#[trigger] self.found@[i], q.push(idx)),
            decreases n - idx + (if stop { 0int } else { 1int }),
        {
            let row_index = self.sorted[idx];
            let amount = self.rows[row_index].amount as i128;
            proof {
                lemma_total_bound(a, image(pi, q));
                lemma_increasing_len(q, pos as int);
            }
            let next_sum = sum + amount;
            if next_sum > self.hi {
                proof {
                    assert forall|r: Seq<usize>|
                        #[trigger] ext_valid(a, pi, lo, hi, k, q, r, pos as int) && r.len() > 0 && r[0] < idx + 1
                            && positive(a) implies self.found@.contains(q + r) by {
                        if r[0] == idx {
                            lemma_image_concat(pi, q, r);
                            lemma_total_concat(a, image(pi, q), image(pi, r));
                            lemma_total_first(a, image(pi, r));
                            assert(image(pi, r).drop_first() =~= image(pi, r.drop_first()));
                            assert forall|j: int| 0 <= j < r.drop_first().len() implies r.drop_first()[j] < a.len() by {
                                assert(r[j + 1] < pi.len());
                            }
                            lemma_image_no_dup(pi, q, nn as nat);
                            assert(bounded_by(image(pi, r.drop_first()), a.len() as int)) by {
                                assert forall|j: int| 0 <= j < image(pi, r.drop_first()).len()
                                    implies image(pi, r.drop_first())[j] < a.len() by {
                                    assert(r.drop_first()[j] < pi.len());
                                }
                            }
                            lemma_total_nonneg(a, image(pi, r.drop_first()));
                        }
                    }
                    assert forall|i: int| 0 <= i < self.found@.len() implies lex_lt(
                        #[trigger] self.found@[i],
                        q.push((idx + 1) as usize),
                    ) by {
                        lemma_lex_raise(self.found@[i], q, idx, (idx + 1) as usize);
                    }
                }
                idx = idx + 1;
            } else {
            let best_future = self.reachable(idx + 1, self.max_invoices - depth - 1);
            proof {
                lemma_top_bound(a, pi, (idx + 1) as int, (k - depth - 1) as nat);
            }
            if next_sum + best_future < self.lo {
                proof {
                    assert forall|r: Seq<usize>|
                        #[trigger] ext_valid(a, pi, lo, hi, k, q, r, pos as int) && positive(a)
                            implies (r.len() > 0 ==> r[0] < idx) by {
                        if r.len() > 0 && r[0] >= idx {
                            lemma_image_concat(pi, q, r);
                            lemma_total_concat(a, image(pi, q), image(pi, r));
                            assert forall|j: int| 0 <= j < r.len() implies idx <= #[trigger] r[j] < pi.len() by {
                                assert(r[0] <= r[j] || j == 0);
                            }
                            lemma_top_bounds_choices(a, pi, r, idx as int, (k - depth) as nat);
                        }
                    }
                }
                stop = true;
            } else {
            chosen.push(row_index);
            let ghost q2 = q.push(idx);
            proof {
                lemma_image_push(pi, q, idx);
                lemma_total_push(a, image(pi, q), row_index);
                assert forall|j: int| 0 <= j < q2.len() implies #[trigger] q2[j] < idx + 1 by {
                    if j < q.len() {
                        assert(q[j] < pos);
                    }
                }
                assert forall|i: int| 0 <= i < self.found@.len() implies !extends(#[trigger] self.found@[i], q2, (idx + 1) as int) by {
                    let f = self.found@[i];
                    if extends(f, q2, (idx + 1) as int) {
                        assert(f.subrange(0, q.len() as int) =~= q2.subrange(0, q.len() as int));
                        assert(q2.subrange(0, q.len() as int) =~= q);
                        assert(f[q.len() as int] == q2[q.len() as int]);
                        if i < start.len() {
                            assert(self.found@.subrange(0, emitted.len() as int)[i] == emitted[i]);
                            assert(emitted.subrange(0, start.len() as int)[i] == start[i]);
                            assert(f == start[i]);
                            assert(extends(f, q, pos as int));
                        } else if i < emitted.len() {
                            assert(self.found@.subrange(0, emitted.len() as int)[i] == emitted[i]);
                            assert(f == emitted[i]);
                            assert(f.len() == q.len());
                        } else {
                            assert(f[q.len() as int] < idx);
                        }
                    }
                }
            }
            let ghost before_child = self.found@;
            let child = self.dfs(idx + 1, depth + 1, next_sum, chosen, Ghost(q2));
            chosen.pop();
            proof {
                assert(chosen@ =~= image(pi, q));
                assert forall|i: int| 0 <= i < start.len() implies self.found@[i] == start[i] by {
                    assert(self.found@.subrange(0, before_child.len() as int)[i] == before_child[i]);
                    assert(before_child.subrange(0, emitted.len() as int)[i] == emitted[i]);
                    assert(emitted.subrange(0, start.len() as int)[i] == start[i]);
                }
                assert(self.found@.subrange(0, start.len() as int) =~= start);
                assert forall|i: int| start.len() <= i < self.found@.len() implies extends(#[trigger] self.found@[i], q, pos as int) by {
                    if i < before_child.len() {
                        assert(self.found@.subrange(0, before_child.len() as int)[i] == before_child[i]);
                        if i < emitted.len() {
                            assert(before_child.subrange(0, emitted.len() as int)[i] == emitted[i]);
                            assert(extends(emitted[i], q, pos as int));
                        } else {
                            assert(extends(before_child[i], q, pos as int));
                        }
                    } else {
                        let f = self.found@[i];
                        assert(extends(f, q2, (idx + 1) as int));
                        assert(f.subrange(0, q.len() as int) =~= f.subrange(0, q2.len() as int).subrange(0, q.len() as int));
                        assert(q2.subrange(0, q.len() as int) =~= q);
                        assert(f.subrange(0, q2.len() as int)[q.len() as int] == q2[q.len() as int]);
                    }
                }
            }
            let completed = match child {
                Err(e) => {
                    return Err(e);
                },
                Ok(b) => b,
            };
            proof {
                assert(chosen@ =~= image(pi, q));
                assert(self.found@.subrange(0, emitted.len() as int) =~= emitted) by {
                    assert(self.found@.subrange(0, before_child.len() as int) == before_child);
                    assert forall|i: int| 0 <= i < emitted.len() implies self.found@[i] == emitted[i] by {
                        assert(self.found@.subrange(0, before_child.len() as int)[i] == before_child[i]);
                        assert(before_child.subrange(0, emitted.len() as int)[i] == emitted[i]);
                    }
                }
                assert forall|i: int| emitted.len() <= i < self.found@.len() implies {
                    &&& extends(#[trigger] self.found@[i], q, pos as int)
                    &&& self.found@[i].len() > q.len()
                    &&& self.found@[i][q.len() as int] < idx + 1
                } by {
                    let f = self.found@[i];
                    if i < before_child.len() {
                        assert(self.found@.subrange(0, before_child.len() as int)[i] == before_child[i]);
                    } else {
                        assert(extends(f, q2, (idx + 1) as int));
                        assert(f.subrange(0, q2.len() as int)[q.len() as int] == q2[q.len() as int]);
                        assert(f.subrange(0, q.len() as int) =~= f.subrange(0, q2.len() as int).subrange(0, q.len() as int));
                        assert(q2.subrange(0, q.len() as int) =~= q);
                    }
                }
            }
            if !completed {
                return Ok(false);
            }
            proof {
                assert forall|r: Seq<usize>|
                    #[trigger] ext_valid(a, pi, lo, hi, k, q, r, pos as int) && r.len() > 0 && r[0] < idx + 1
                        && positive(a) implies self.found@.contains(q + r) by {
                    if r[0] == idx {
                        let r2 = r.drop_first();
                        assert(q + r =~= q2 + r2);
                        assert forall|j: int| 0 <= j < r2.len() implies (idx + 1) as int <= #[trigger] r2[j] < pi.len() by {
                            assert(r[0] < r[j + 1]);
                        }
                        assert(ext_valid(a, pi, lo, hi, k, q2, r2, (idx + 1) as int));
                    } else {
                        assert(before_child.contains(q + r));
                        let w = choose|w: int| 0 <= w < before_child.len() && before_child[w] == q + r;
                        assert(self.found@.subrange(0, before_child.len() as int)[w] == before_child[w]);
                    }
                }
                assert forall|i: int| 0 <= i < self.found@.len() implies lex_lt(
                    #[trigger] self.found@[i],
                    q.push((idx + 1) as usize),
                ) by {
                    let f = self.found@[i];
                    if i < before_child.len() {
                        assert(self.found@.subrange(0, before_child.len() as int)[i] == before_child[i]);
                        assert(lex_lt(before_child[i], q.push(idx)));
                        lemma_lex_raise(f, q, idx, (idx + 1) as usize);
                    } else {
                        assert(extends(f, q2, (idx + 1) as int));
                        lemma_lex_child(f, q, idx);
                    }
                }
            }
            idx = idx + 1;
            }
            }
        }
        proof {
            assert forall|r: Seq<usize>| #[trigger] ext_valid(a, pi, lo, hi, k, q, r, pos as int) && positive(a)
                implies self.found@.contains(q + r) by {
                if r.len() == 0 {
                    assert(q + r =~= q);
                    let w = choose|w: int| 0 <= w < emitted.len() && emitted[w] == q;
                    assert(self.found@.subrange(0, emitted.len() as int)[w] == emitted[w]);
                }
            }
            assert(self.found@.subrange(0, start.len() as int) =~= start) by {
                assert forall|i: int| 0 <= i < start.len() implies self.found@[i] == start[i] by {
                    assert(self.found@.subrange(0, emitted.len() as int)[i] == emitted[i]);
                    assert(emitted.subrange(0, start.len() as int)[i] == start[i]);
                }
            }
        }
        Ok(true)
    }

    /// Sum of the `slots` largest amounts among sorted positions `pos..`
    /// (0 if `slots == 0` or no items remain).
    fn reachable(&self, pos: usize, slots: usize) -> (r: i128)
        requires
            self.wf(),
            pos <= self.n(),
        ensures
            r == top(self.a(), self.sorted@, pos as int, slots as nat),
    {
        let n = self.sorted.len();
        if slots == 0 || pos >= n {
            return 0;
        }
        let end = if slots >= n - pos { n } else { pos + slots };
        proof {
            lemma_suffix_top(self.a(), self.sorted@, pos as int, slots as nat);
            lemma_top_bound(self.a(), self.sorted@, pos as int, slots as nat);
            assert(self.reach@[pos as int] == suffix(self.a(), self.sorted@, pos as int));
            assert(self.reach@[end as int] == suffix(self.a(), self.sorted@, end as int));
        }
        self.reach[pos] - self.reach[end]
    }
}


/// A recorded position sequence yields a matching combination.
proof fn lemma_entry_matches(
    a: Seq<int>,
    pi: Seq<usize>,
    target: int,
    tolerance: int,
    k: nat,
    f: Seq<usize>,
    c: Combo,
)
    requires
        is_permutation(pi, a.len()),
        increasing(f),
        bounded_by(f, a.len() as int),
        1 <= f.len() <= k,
        target - tolerance <= total_of(a, image(pi, f)) <= target + tolerance,
        increasing(c.indices@),
        same_members(c.indices@, image(pi, f)),
        c.total == total_of(a, image(pi, f)),
    ensures
        is_match(a, target, tolerance, k, c.indices@),
        c.total == total_of(a, c.indices@),
{
    lemma_image_no_dup(pi, f, a.len());
    lemma_increasing_no_dup(c.indices@);
    lemma_same_members_same_total(a, c.indices@, image(pi, f));
    assert forall|j: int| 0 <= j < c.indices@.len() implies c.indices@[j] < a.len() by {
        assert(c.indices@.contains(c.indices@[j]));
        assert(image(pi, f).contains(c.indices@[j]));
    }
}

/// Distinct recorded position sequences yield distinct combinations.
proof fn lemma_entries_distinct(pi: Seq<usize>, n: nat, f1: Seq<usize>, f2: Seq<usize>, c1: Seq<usize>, c2: Seq<usize>)
    requires
        is_permutation(pi, n),
        increasing(f1),
        increasing(f2),
        bounded_by(f1, n as int),
        bounded_by(f2, n as int),
        same_members(c1, image(pi, f1)),
        same_members(c2, image(pi, f2)),
        f1 != f2,
    ensures
        c1 != c2,
{
    if c1 == c2 {
        assert forall|p: usize| f1.contains(p) <==> f2.contains(p) by {
            if f1.contains(p) {
                let i = choose|i: int| 0 <= i < f1.len() && f1[i] == p;
                assert(image(pi, f1)[i] == pi[p as int]);
                assert(image(pi, f2).contains(pi[p as int]));
                let j = choose|j: int| 0 <= j < f2.len() && image(pi, f2)[j] == pi[p as int];
                assert(pi[f2[j] as int] == pi[p as int]);
                assert(f2[j] == p);
            }
            if f2.contains(p) {
                let i = choose|i: int| 0 <= i < f2.len() && f2[i] == p;
                assert(image(pi, f2)[i] == pi[p as int]);
                assert(image(pi, f1).contains(pi[p as int]));
                let j = choose|j: int| 0 <= j < f1.len() && image(pi, f1)[j] == pi[p as int];
                assert(pi[f1[j] as int] == pi[p as int]);
                assert(f1[j] == p);
            }
        }
        lemma_increasing_same_members_equal(f1, f2);
    }
}

/// Every matching combination corresponds to a valid extension of the empty
/// prefix in the amount-sorted order.
proof fn lemma_match_has_positions(
    a: Seq<int>,
    pi: Seq<usize>,
    target: int,
    tolerance: int,
    k: nat,
    s: Seq<usize>,
) -> (qs: Seq<usize>)
    requires
        is_permutation(pi, a.len()),
        a.len() <= usize::MAX,
        is_match(a, target, tolerance, k, s),
    ensures
        ext_valid(a, pi, target - tolerance, target + tolerance, k as int, Seq::empty(), qs, 0),
        increasing(qs),
        bounded_by(qs, a.len() as int),
        same_members(image(pi, qs), s),
{
    let n = a.len() as int;
    let qs = positions_of(pi, s, n);
    lemma_positions_of(pi, s, n);
    let im = image(pi, qs);
    assert forall|y: usize| im.contains(y) <==> s.contains(y) by {
        if im.contains(y) {
            let i = choose|i: int| 0 <= i < im.len() && im[i] == y;
            assert(qs.contains(qs[i]));
        }
        if s.contains(y) {
            let j = choose|j: int| 0 <= j < s.len() && s[j] == y;
            assert(y < n);
            assert(pi.contains(y));
            let p = choose|p: int| 0 <= p < pi.len() && pi[p] == y;
            assert(qs.contains(p as usize));
            let i = choose|i: int| 0 <= i < qs.len() && qs[i] == p as usize;
            assert(im[i] == y);
        }
    }
    lemma_image_no_dup(pi, qs, a.len());
    lemma_increasing_no_dup(s);
    lemma_same_members_same_total(a, im, s);
    assert(Seq::<usize>::empty() + qs =~= qs);
    qs
}

fn run_search(
    rows: &[InvoiceRow],
    target: i64,
    tolerance: i64,
    max_invoices: usize,
    deadline: Deadline,
    node_budget: u64,
    limit: Option<usize>,
) -> (res: Result<SearchOutcome, SearchError>)
    requires
        window_fits(target, tolerance),
        rows@.len() < usize::MAX,
        limit matches Some(c) ==> c >= 1,
    ensures
        res matches Ok(o) ==> {
            &&& all_match(rows@, target as int, tolerance as int, size_limit(max_invoices), o.combos@)
            &&& distinct_combos(o.combos@)
            &&& (!o.truncated && all_positive(rows@)) ==> covers_all(
                rows@,
                target as int,
                tolerance as int,
                size_limit(max_invoices),
                o.combos@,
            )
            &&& o.truncated ==> (limit matches Some(c) && o.combos@.len() == c)
            &&& !o.truncated ==> (limit matches Some(c) ==> o.combos@.len() < c)
            &&& in_search_order(amounts(rows@), o.combos@)
        },
        res matches Err(e) ==> (e == SearchError::BudgetExceeded ==> node_budget < u64::MAX),
        res matches Err(e) ==> (e == SearchError::Timeout ==> !deadline.never_expires()),
{
    let ghost a = amounts(rows@);
    let sorted = order_by_amount_desc(rows);
    let n = rows.len();
    let mut reach: Vec<i128> = Vec::new();
    let mut j: usize = 0;
    while j <= n
        invariant
            n < usize::MAX,
            j <= n + 1,
            reach@.len() == j,
            forall|t: int| 0 <= t < j ==> reach@[t] == 0,
        decreases n + 1 - j,
    {
        reach.push(0);
        j = j + 1;
    }
    let mut i: usize = n;
    while i > 0
        invariant
            n == rows@.len(),
            a == amounts(rows@),
            is_permutation(sorted@, n as nat),
            i <= n,
            reach@.len() == n + 1,
            forall|t: int| i <= t <= n ==> #[trigger] reach@[t] == suffix(a, sorted@, t),
        decreases i,
    {
        i = i - 1;
        proof {
            lemma_suffix_bound(a, sorted@, (i + 1) as int);
            lemma_suffix_bound(a, sorted@, i as int);
        }
        let v = reach[i + 1] + rows[sorted[i]].amount as i128;
        reach.set(i, v);
    }
    let k = if max_invoices == 0 { 1 } else { max_invoices };
    let lo = target as i128 - tolerance as i128;
    let hi = target as i128 + tolerance as i128;
    let mut search = Search {
        rows,
        sorted,
        reach,
        lo,
        hi,
        max_invoices: k,
        deadline,
        nodes: 0,
        node_budget,
        limit,
        out: Vec::new(),
        found: Ghost(Seq::empty()),
    };
    let mut chosen: Vec<usize> = Vec::new();
    assert(chosen@ =~= image(search.sorted@, Seq::empty()));
    let ghost lo0 = search.lo as int;
    let ghost hi0 = search.hi as int;
    let ghost k0 = search.max_invoices as int;
    let ghost pi0 = search.sorted@;
    let ghost a0 = search.a();
    assert(a0 == a);
    let r = search.dfs(0, 0, 0, &mut chosen, Ghost(Seq::empty()));
    match r {
        Err(e) => Err(e),
        Ok(completed) => {
            let ghost pi = search.sorted@;
            let ghost found = search.found@;
            let combos = search.out;
            proof {
                let kk = size_limit(max_invoices);
                assert forall|t: int| 0 <= t < combos@.len() implies combo_is_match(
                    rows@,
                    target as int,
                    tolerance as int,
                    kk,
                    #[trigger] combos@[t],
                ) by {
                    lemma_entry_matches(a, pi, target as int, tolerance as int, kk, found[t], combos@[t]);
                }
                assert(amount_order(a, pi));
                assert forall|t: int, u: int| 0 <= t < u < combos@.len() implies search_before(
                    a,
                    #[trigger] combos@[t].indices@,
                    #[trigger] combos@[u].indices@,
                ) by {
                    let f1 = found[t];
                    let f2 = found[u];
                    assert(lex_lt(f1, f2));
                    assert(pi.len() == a.len());
                    lemma_entry_matches(a, pi, target as int, tolerance as int, kk, f1, combos@[t]);
                    lemma_entry_matches(a, pi, target as int, tolerance as int, kk, f2, combos@[u]);
                    assert(same_members(image(pi, f1), combos@[t].indices@));
                    assert(same_members(image(pi, f2), combos@[u].indices@));
                }
                assert forall|t: int, u: int| 0 <= t < u < combos@.len() implies combos@[t].indices@
                    != combos@[u].indices@ by {
                    lemma_entries_distinct(pi, n as nat, found[t], found[u], combos@[t].indices@, combos@[u].indices@);
                }
                if completed && all_positive(rows@) {
                    assert(positive(a));
                    assert forall|s: Seq<usize>| #[trigger] is_match(a, target as int, tolerance as int, kk, s)
                        implies exists|t: int| 0 <= t < combos@.len() && combos@[t].indices@ == s by {
                        let qs = lemma_match_has_positions(a, pi, target as int, tolerance as int, kk, s);
                        assert(Seq::<usize>::empty() + qs =~= qs);
                        assert(lo0 == target - tolerance && hi0 == target + tolerance && k0 == kk);
                        assert(positive(a0));
                        assert(ext_valid(a0, pi0, lo0, hi0, k0, Seq::empty(), qs, 0));
                        assert(found.contains(Seq::<usize>::empty() + qs));
                        assert(found.contains(qs));
                        let w = choose|w: int| 0 <= w < found.len() && found[w] == qs;
                        lemma_increasing_same_members_equal(combos@[w].indices@, s);
                    }
                }
            }
            Ok(SearchOutcome { combos, truncated: !completed })
        },
    }
}

/// Finds all combinations of size `1..=max_invoices` whose total lies within
/// `[target - tolerance, target + tolerance]`, in the order of a depth-first
/// search over the invoices ranked by descending amount (each combination
/// before its extensions, smaller ranks first).
pub fn find_combinations(
    rows: &[InvoiceRow],
    target: i64,
    tolerance: i64,
    max_invoices: usize,
    deadline: Deadline,
) -> (res: Result<Vec<Combo>, SearchError>)
    requires
        window_fits(target, tolerance),
        rows@.len() < usize::MAX,
    ensures
        res matches Ok(cs) ==> {
            &&& all_match(rows@, target as int, tolerance as int, max_invoices as nat, cs@)
            &&& distinct_combos(cs@)
            &&& all_positive(rows@) ==> covers_all(rows@, target as int, tolerance as int, max_invoices as nat, cs@)
            &&& in_search_order(amounts(rows@), cs@)
        },
        max_invoices == 0 ==> (res matches Ok(cs) && cs@.len() == 0),
        res matches Err(e) ==> e == SearchError::Timeout && !deadline.never_expires(),
{
    if max_invoices == 0 {
        return Ok(Vec::new());
    }
    match run_search(rows, target, tolerance, max_invoices, deadline, u64::MAX, None) {
        Ok(o) => Ok(o.combos),
        Err(e) => Err(e),
    }
}

/// Like [`find_combinations`], but gives up with `BudgetExceeded` once more
/// than `node_budget` search nodes were explored, and stops early (marking
/// the outcome truncated) once `result_cap` combinations were found.
pub fn find_combinations_capped(
    rows: &[InvoiceRow],
    target: i64,
    tolerance: i64,
    max_invoices: usize,
    deadline: Deadline,
    node_budget: u64,
    result_cap: usize,
) -> (res: Result<SearchOutcome, SearchError>)
    requires
        window_fits(target, tolerance),
        rows@.len() < usize::MAX,
    ensures
        res matches Ok(o) ==> {
            &&& all_match(rows@, target as int, tolerance as int, max_invoices as nat, o.combos@)
            &&& distinct_combos(o.combos@)
            &&& (!o.truncated && all_positive(rows@)) ==> covers_all(
                rows@,
                target as int,
                tolerance as int,
                max_invoices as nat,
                o.combos@,
            )
            &&& o.truncated ==> o.combos@.len() == size_limit(result_cap)
            &&& !o.truncated ==> o.combos@.len() < size_limit(result_cap)
            &&& in_search_order(amounts(rows@), o.combos@)
        },
        max_invoices == 0 ==> (res matches Ok(o) && o.combos@.len() == 0 && !o.truncated),
        res matches Err(e) ==> (e == SearchError::BudgetExceeded ==> node_budget < u64::MAX),
        res matches Err(e) ==> (e == SearchError::Timeout ==> !deadline.never_expires()),
{
    if max_invoices == 0 {
        return Ok(SearchOutcome { combos: Vec::new(), truncated: false });
    }
    let cap = if result_cap == 0 { 1 } else { result_cap };
    run_search(rows, target, tolerance, max_invoices, deadline, node_budget, Some(cap))
}


// ---------------------------------------------------------------------------
// Exhaustive reference enumeration
// ---------------------------------------------------------------------------

/// `2^n`.
pub open spec fn pow2(n: nat) -> nat
    decreases n,
{
    if n == 0 {
        1
    } else {
        2 * pow2((n - 1) as nat)
    }
}

/// The bitmask of the row set `s`: the sum of `2^i` over its members.
pub open spec fn mask(s: Seq<usize>) -> int
    decreases s.len(),
{
    if s.len() == 0 {
        0
    } else {
        mask(s.drop_last()) + pow2(s.last() as nat)
    }
}

/// The combinations of `cs` come in increasing bitmask order.
pub open spec fn mask_ordered(cs: Seq<Combo>) -> bool {
    forall|i: int, j: int| 0 <= i < j < cs.len() ==> mask(cs[i].indices@) < mask(cs[j].indices@)
}

proof fn lemma_pow2_monotone(m: nat, n: nat)
    requires
        m <= n,
    ensures
        pow2(m) <= pow2(n),
    decreases n,
{
    if m < n {
        lemma_pow2_monotone(m, (n - 1) as nat);
    }
}

proof fn lemma_mask_concat(s: Seq<usize>, t: Seq<usize>)
    ensures
        mask(s + t) == mask(s) + mask(t),
    decreases t.len(),
{
    if t.len() == 0 {
        assert(s + t =~= s);
    } else {
        lemma_mask_concat(s, t.drop_last());
        assert((s + t).drop_last() =~= s + t.drop_last());
    }
}

/// An increasing set below `m` has a bitmask below `2^m`.
proof fn lemma_mask_below(s: Seq<usize>, m: nat)
    requires
        increasing(s),
        forall|j: int| 0 <= j < s.len() ==> s[j] < m,
    ensures
        0 <= mask(s) < pow2(m),
    decreases s.len(),
{
    lemma_pow2_monotone(0, m);
    if s.len() > 0 {
        let d = s.drop_last();
        let top = s.last() as nat;
        assert forall|j: int| 0 <= j < d.len() implies d[j] < top by {
            assert(s[j] < s[s.len() - 1]);
        }
        lemma_mask_below(d, top);
        assert(top < m);
        assert(pow2(top + 1) == 2 * pow2(top));
        lemma_pow2_monotone(top + 1, m);
    }
}

/// `r` followed by `c` is a combination: `r` increasing below `i`, the two
/// holding `1..=k` invoices in all, totalling within `[lo, hi]`.
pub open spec fn below_valid(a: Seq<int>, lo: int, hi: int, k: int, c: Seq<usize>, r: Seq<usize>, i: int) -> bool {
    &&& increasing(r)
    &&& forall|j: int| 0 <= j < r.len() ==> #[trigger] r[j] < i
    &&& r.len() + c.len() <= k
    &&& r.len() + c.len() >= 1
    &&& lo <= total_of(a, r + c) <= hi
}

/// `f` is some `r` followed by `c` with `below_valid`.
pub open spec fn ends_valid(a: Seq<int>, lo: int, hi: int, k: int, c: Seq<usize>, i: int, f: Seq<usize>) -> bool {
    &&& f.len() >= c.len()
    &&& f.subrange(f.len() - c.len(), f.len() as int) == c
    &&& below_valid(a, lo, hi, k, c, f.subrange(0, f.len() - c.len()), i)
}

proof fn lemma_ends_exclude(a: Seq<int>, lo: int, hi: int, k: int, c: Seq<usize>, i: int, f: Seq<usize>)
    requires
        i >= 1,
        ends_valid(a, lo, hi, k, c, i - 1, f),
    ensures
        ends_valid(a, lo, hi, k, c, i, f),
        0 <= mask(f.subrange(0, f.len() - c.len())) < pow2((i - 1) as nat),
        mask(f) == mask(f.subrange(0, f.len() - c.len())) + mask(c),
{
    let r = f.subrange(0, f.len() - c.len());
    assert(r + c =~= f);
    lemma_mask_concat(r, c);
    lemma_mask_below(r, (i - 1) as nat);
}

proof fn lemma_ends_include(a: Seq<int>, lo: int, hi: int, k: int, c: Seq<usize>, m: usize, f: Seq<usize>)
    requires
        ends_valid(a, lo, hi, k, seq![m] + c, m as int, f),
    ensures
        ends_valid(a, lo, hi, k, c, m + 1, f),
        mask(f) >= pow2(m as nat) + mask(c),
{
    let cc = seq![m] + c;
    let rr = f.subrange(0, f.len() - cc.len());
    let r = f.subrange(0, f.len() - c.len());
    assert(rr + cc =~= f);
    assert(r =~= rr.push(m)) by {
        assert(f.subrange(f.len() - cc.len(), f.len() as int)[0] == m);
    }
    assert(f.subrange(f.len() - c.len(), f.len() as int) =~= c) by {
        assert forall|x: int| 0 <= x < c.len() implies f.subrange(f.len() - c.len(), f.len() as int)[x] == c[x] by {
            assert(f[f.len() - c.len() + x] == cc[x + 1]);
        }
    }
    assert(r + c =~= rr + cc);
    assert forall|x: int, y: int| 0 <= x < y < r.len() implies r[x] < r[y] by {
        if y == r.len() - 1 {
            assert(rr[x] < m);
        }
    }
    assert forall|j: int| 0 <= j < r.len() implies #[trigger] r[j] < m + 1 by {
        if j < rr.len() {
            assert(r[j] == rr[j]);
        }
    }
    assert(r.len() + c.len() == rr.len() + cc.len());
    assert(total_of(a, r + c) == total_of(a, rr + cc));
    assert(below_valid(a, lo, hi, k, c, r, m + 1));
    lemma_mask_concat(r, c);
    assert(r.drop_last() =~= rr);
    assert(mask(rr) >= 0) by {
        lemma_mask_below(rr, m as nat);
    }
}

proof fn lemma_split_below(a: Seq<int>, lo: int, hi: int, k: int, c: Seq<usize>, r: Seq<usize>, m: usize)
    requires
        below_valid(a, lo, hi, k, c, r, m + 1),
    ensures
        (r.len() > 0 && r.last() == m) ==> {
            &&& below_valid(a, lo, hi, k, seq![m] + c, r.drop_last(), m as int)
            &&& r + c == r.drop_last() + (seq![m] + c)
        },
        !(r.len() > 0 && r.last() == m) ==> below_valid(a, lo, hi, k, c, r, m as int),
{
    if r.len() > 0 && r.last() == m {
        let rr = r.drop_last();
        assert(r + c =~= rr + (seq![m] + c));
        assert forall|j: int| 0 <= j < rr.len() implies #[trigger] rr[j] < m by {
            assert(r[j] < r[r.len() - 1]);
        }
    } else {
        assert forall|j: int| 0 <= j < r.len() implies #[trigger] r[j] < m by {
            if r[j] == m {
                if j < r.len() - 1 {
                    assert(r[j] < r[r.len() - 1]);
                }
            }
        }
    }
}

/// Enumerates, in increasing bitmask order, every set of invoices below `i`
/// that completes `chosen` (invoices at `i` and above) to a combination,
/// appending each to `out`.
#[verifier::rlimit(30)]
fn enumerate_below(
    rows: &[InvoiceRow],
    i: usize,
    chosen: &mut Vec<usize>,
    sum: i128,
    lo: i128,
    hi: i128,
    k: usize,
    out: &mut Vec<Combo>,
)
    requires
        i <= rows@.len(),
        rows@.len() < usize::MAX,
        i64::MIN <= lo,
        hi <= i64::MAX,
        increasing(old(chosen)@),
        forall|j: int| 0 <= j < old(chosen)@.len() ==> i <= #[trigger] old(chosen)@[j] < rows@.len(),
        old(chosen)@.len() <= k,
        sum == total_of(amounts(rows@), old(chosen)@),
    ensures
        final(chosen)@ == old(chosen)@,
        final(out)@.len() >= old(out)@.len(),
        forall|t: int| 0 <= t < old(out)@.len() ==> #[trigger] final(out)@[t] == old(out)@[t],
        forall|t: int| old(out)@.len() <= t < final(out)@.len() ==> {
            &&& ends_valid(amounts(rows@), lo as int, hi as int, k as int, old(chosen)@, i as int, #[trigger] final(out)@[t].indices@)
            &&& final(out)@[t].total == total_of(amounts(rows@), final(out)@[t].indices@)
        },
        forall|t: int, u: int| old(out)@.len() <= t < u < final(out)@.len() ==> mask(final(out)@[t].indices@) < mask(
            final(out)@[u].indices@,
        ),
        forall|r: Seq<usize>| #[trigger] below_valid(amounts(rows@), lo as int, hi as int, k as int, old(chosen)@, r, i as int)
            ==> exists|t: int| old(out)@.len() <= t < final(out)@.len() && final(out)@[t].indices@ == r + old(chosen)@,
    decreases i,
{
    let ghost a = amounts(rows@);
    let ghost c = chosen@;
    proof {
        assert(bounded_by(c, a.len() as int));
        lemma_total_bound(a, c);
        lemma_increasing_len(c, a.len() as int);
    }
    if i == 0 {
        if chosen.len() >= 1 && lo <= sum && sum <= hi {
            let indices = chosen.clone();
            out.push(Combo { indices, total: sum as i64 });
            proof {
                assert(out@[out@.len() - 1].indices@ == c);
                assert(c.subrange(0, 0) =~= Seq::<usize>::empty());
                assert(c.subrange(0, c.len() as int) =~= c);
                assert(Seq::<usize>::empty() + c =~= c);
            }
        }
        proof {
            assert forall|r: Seq<usize>| #[trigger] below_valid(a, lo as int, hi as int, k as int, c, r, i as int)
                implies exists|t: int| old(out)@.len() <= t < out@.len() && out@[t].indices@ == r + c by {
                if r.len() > 0 {
                    assert(r[0] < 0);
                }
                assert(r =~= Seq::<usize>::empty());
                assert(r + c =~= c);
                assert(out@[out@.len() - 1].indices@ == c);
            }
        }
        return;
    }
    let m = i - 1;
    let ghost out0 = out@;
    enumerate_below(rows, m, chosen, sum, lo, hi, k, out);
    let ghost out1 = out@;
    proof {
        assert forall|t: int| out0.len() <= t < out1.len() implies {
            &&& ends_valid(a, lo as int, hi as int, k as int, c, i as int, #[trigger] out1[t].indices@)
            &&& mask(out1[t].indices@) < pow2(m as nat) + mask(c)
        } by {
            lemma_ends_exclude(a, lo as int, hi as int, k as int, c, i as int, out1[t].indices@);
        }
    }
    if chosen.len() < k {
        let amount = rows[m].amount as i128;
        chosen.insert(0, m);
        proof {
            assert(chosen@ =~= seq![m] + c);
            lemma_total_concat(a, seq![m], c);
            assert(seq![m].drop_last() =~= Seq::<usize>::empty());
            assert(seq![m].last() == m);
            assert(total_of(a, Seq::<usize>::empty()) == 0);
            assert(total_of(a, seq![m]) == a[m as int]);
            assert(a[m as int] == amount);
        }
        enumerate_below(rows, m, chosen, sum + amount, lo, hi, k, out);
        chosen.remove(0);
        proof {
            assert(chosen@ =~= c);
            assert forall|t: int| out1.len() <= t < out@.len() implies {
                &&& ends_valid(a, lo as int, hi as int, k as int, c, i as int, #[trigger] out@[t].indices@)
                &&& mask(out@[t].indices@) >= pow2(m as nat) + mask(c)
            } by {
                lemma_ends_include(a, lo as int, hi as int, k as int, c, m, out@[t].indices@);
            }
        }
    }
    proof {
        assert forall|t: int| old(out)@.len() <= t < out@.len() implies {
            &&& ends_valid(a, lo as int, hi as int, k as int, c, i as int, #[trigger] out@[t].indices@)
            &&& out@[t].total == total_of(a, out@[t].indices@)
        } by {
            if t < out1.len() {
                assert(out@[t] == out1[t]);
            }
        }
        assert forall|t: int, u: int| old(out)@.len() <= t < u < out@.len() implies mask(out@[t].indices@) < mask(
            out@[u].indices@,
        ) by {
            if t < out1.len() && u >= out1.len() {
                assert(out@[t] == out1[t]);
            } else if u < out1.len() {
                assert(out@[t] == out1[t] && out@[u] == out1[u]);
            }
        }
        assert forall|r: Seq<usize>| #[trigger] below_valid(a, lo as int, hi as int, k as int, c, r, i as int)
            implies exists|t: int| old(out)@.len() <= t < out@.len() && out@[t].indices@ == r + c by {
            lemma_split_below(a, lo as int, hi as int, k as int, c, r, m);
            if r.len() > 0 && r.last() == m {
                let rr = r.drop_last();
                assert(below_valid(a, lo as int, hi as int, k as int, seq![m] + c, rr, m as int));
                assert(c.len() < k);
                let t = choose|t: int| out1.len() <= t < out@.len() && out@[t].indices@ == rr + (seq![m] + c);
            } else {
                assert(below_valid(a, lo as int, hi as int, k as int, c, r, m as int));
                let t = choose|t: int| out0.len() <= t < out1.len() && out1[t].indices@ == r + c;
                assert(out@[t] == out1[t]);
            }
        }
    }
}

/// Naive exhaustive enumeration of every combination of size
/// `1..=max_invoices` whose total lies within `[target - tolerance,
/// target + tolerance]`, in increasing bitmask order (bit `i` standing for
/// row `i`), without any pruning; a reference for the search.
pub fn brute_force_reference(rows: &[InvoiceRow], target: i64, tolerance: i64, max_invoices: usize) -> (r: Vec<Combo>)
    requires
        window_fits(target, tolerance),
        rows@.len() < usize::MAX,
    ensures
        all_match(rows@, target as int, tolerance as int, max_invoices as nat, r@),
        distinct_combos(r@),
        covers_all(rows@, target as int, tolerance as int, max_invoices as nat, r@),
        mask_ordered(r@),
{
    let ghost a = amounts(rows@);
    let lo = target as i128 - tolerance as i128;
    let hi = target as i128 + tolerance as i128;
    let mut chosen: Vec<usize> = Vec::new();
    let mut out: Vec<Combo> = Vec::new();
    enumerate_below(rows, rows.len(), &mut chosen, 0, lo, hi, max_invoices, &mut out);
    proof {
        let k = max_invoices as nat;
        assert forall|t: int| 0 <= t < out@.len() implies combo_is_match(rows@, target as int, tolerance as int, k, #[trigger] out@[t]) by {
            let f = out@[t].indices@;
            assert(ends_valid(a, lo as int, hi as int, max_invoices as int, Seq::empty(), a.len() as int, f));
            assert(f.subrange(0, f.len() as int) =~= f);
            assert(f + Seq::<usize>::empty() =~= f);
        }
        assert forall|s: Seq<usize>| #[trigger] is_match(a, target as int, tolerance as int, k, s)
            implies exists|t: int| 0 <= t < out@.len() && out@[t].indices@ == s by {
            assert(s + Seq::<usize>::empty() =~= s);
            assert(below_valid(a, lo as int, hi as int, k as int, Seq::empty(), s, a.len() as int));
        }
        assert forall|t: int, u: int| 0 <= t < u < out@.len() implies out@[t].indices@ != out@[u].indices@ by {
            assert(mask(out@[t].indices@) < mask(out@[u].indices@));
        }
    }
    out
}

/// The index lists of `cs`, in order.
pub open spec fn index_lists(cs: Seq<Combo>) -> Seq<Seq<usize>> {
    cs.map_values(|c: Combo| c.indices@)
}

proof fn lemma_index_set_is_matches(rows: Seq<InvoiceRow>, target: int, tolerance: int, k: nat, cs: Seq<Combo>)
    requires
        all_match(rows, target, tolerance, k, cs),
        distinct_combos(cs),
        covers_all(rows, target, tolerance, k, cs),
    ensures
        index_lists(cs).to_set() == Set::new(|s: Seq<usize>| is_match(amounts(rows), target, tolerance, k, s)),
        index_lists(cs).no_duplicates(),
        index_lists(cs).len() == cs.len(),
{
    let l = index_lists(cs);
    let m = Set::new(|s: Seq<usize>| is_match(amounts(rows), target, tolerance, k, s));
    assert forall|s: Seq<usize>| l.to_set().contains(s) <==> m.contains(s) by {
        if l.to_set().contains(s) {
            let i = choose|i: int| 0 <= i < l.len() && l[i] == s;
            assert(combo_is_match(rows, target, tolerance, k, cs[i]));
        }
        if m.contains(s) {
            assert(is_match(amounts(rows), target, tolerance, k, s));
            let i = choose|i: int| 0 <= i < cs.len() && cs[i].indices@ == s;
            assert(l[i] == s);
        }
    }
    assert(l.to_set() =~= m);
    assert forall|i: int, j: int| 0 <= i < l.len() && 0 <= j < l.len() && i != j implies l[i] != l[j] by {
        if i < j {
            assert(cs[i].indices@ != cs[j].indices@);
        } else {
            assert(cs[j].indices@ != cs[i].indices@);
        }
    }
}

/// The pruned search returns exactly the combinations of the exhaustive
/// reference: when every amount is positive, a completed search result and
/// the reference name the same set of index lists, and hold equally many
/// combinations.
pub proof fn lemma_search_matches_reference(
    rows: Seq<InvoiceRow>,
    target: i64,
    tolerance: i64,
    max_invoices: usize,
    found: Seq<Combo>,
    reference: Seq<Combo>,
)
    requires
        all_positive(rows),
        all_match(rows, target as int, tolerance as int, max_invoices as nat, found),
        distinct_combos(found),
        covers_all(rows, target as int, tolerance as int, max_invoices as nat, found),
        all_match(rows, target as int, tolerance as int, max_invoices as nat, reference),
        distinct_combos(reference),
        covers_all(rows, target as int, tolerance as int, max_invoices as nat, reference),
    ensures
        index_lists(found).to_set() == index_lists(reference).to_set(),
        found.len() == reference.len(),
{
    let k = max_invoices as nat;
    lemma_index_set_is_matches(rows, target as int, tolerance as int, k, found);
    lemma_index_set_is_matches(rows, target as int, tolerance as int, k, reference);
    index_lists(found).unique_seq_to_set();
    index_lists(reference).unique_seq_to_set();
}

} // verus!
