//! Mathematical model of invoice combinations: index sequences, their totals,
//! and the facts about totals that the search relies on.
use vstd::prelude::*;

verus! {

/// Sum of `a[s[0]] + a[s[1]] + ...` over the index sequence `s`.
pub open spec fn total_of(a: Seq<int>, s: Seq<usize>) -> int
    decreases s.len(),
{
    if s.len() == 0 {
        0
    } else {
        total_of(a, s.drop_last()) + a[s.last() as int]
    }
}

/// Every element is strictly smaller than the next one.
pub open spec fn increasing(s: Seq<usize>) -> bool {
    forall|i: int, j: int| 0 <= i < j < s.len() ==> s[i] < s[j]
}

/// Every element is below `n`.
pub open spec fn bounded_by(s: Seq<usize>, n: int) -> bool {
    forall|i: int| 0 <= i < s.len() ==> s[i] < n
}

/// `t` lies in the closed window `[target - tolerance, target + tolerance]`.
pub open spec fn within(t: int, target: int, tolerance: int) -> bool {
    target - tolerance <= t <= target + tolerance
}

/// `s` names a combination of `1..=k` distinct invoices (listed in ascending
/// index order) whose total lies within `tolerance` of `target`.
pub open spec fn is_match(a: Seq<int>, target: int, tolerance: int, k: nat, s: Seq<usize>) -> bool {
    &&& increasing(s)
    &&& bounded_by(s, a.len() as int)
    &&& 1 <= s.len() <= k
    &&& within(total_of(a, s), target, tolerance)
}

/// `s` and `t` hold the same elements.
pub open spec fn same_members(s: Seq<usize>, t: Seq<usize>) -> bool {
    forall|x: usize| s.contains(x) <==> t.contains(x)
}

pub proof fn lemma_total_push(a: Seq<int>, s: Seq<usize>, x: usize)
    ensures
        total_of(a, s.push(x)) == total_of(a, s) + a[x as int],
{
    assert(s.push(x).drop_last() =~= s);
}

pub proof fn lemma_total_first(a: Seq<int>, s: Seq<usize>)
    requires
        s.len() > 0,
    ensures
        total_of(a, s) == a[s[0] as int] + total_of(a, s.drop_first()),
    decreases s.len(),
{
    if s.len() > 1 {
        lemma_total_first(a, s.drop_last());
        assert(s.drop_last().drop_first() =~= s.drop_first().drop_last());
    } else {
        assert(s.drop_last() =~= Seq::<usize>::empty());
        assert(s.drop_first() =~= Seq::<usize>::empty());
    }
}

pub proof fn lemma_total_concat(a: Seq<int>, s: Seq<usize>, t: Seq<usize>)
    ensures
        total_of(a, s + t) == total_of(a, s) + total_of(a, t),
    decreases t.len(),
{
    if t.len() == 0 {
        assert(s + t =~= s);
    } else {
        lemma_total_concat(a, s, t.drop_last());
        assert((s + t).drop_last() =~= s + t.drop_last());
    }
}

pub proof fn lemma_total_remove(a: Seq<int>, t: Seq<usize>, j: int)
    requires
        0 <= j < t.len(),
    ensures
        total_of(a, t) == total_of(a, t.remove(j)) + a[t[j] as int],
    decreases t.len(),
{
    if j == t.len() - 1 {
        assert(t.remove(j) =~= t.drop_last());
    } else {
        lemma_total_remove(a, t.drop_last(), j);
        assert(t.remove(j).drop_last() =~= t.drop_last().remove(j));
        assert(t.remove(j).last() == t.last());
    }
}

/// Two duplicate-free sequences with the same elements have the same length
/// and the same total.
pub proof fn lemma_same_members_same_total(a: Seq<int>, s: Seq<usize>, t: Seq<usize>)
    requires
        s.no_duplicates(),
        t.no_duplicates(),
        same_members(s, t),
    ensures
        s.len() == t.len(),
        total_of(a, s) == total_of(a, t),
    decreases s.len(),
{
    if s.len() == 0 {
        if t.len() > 0 {
            assert(t.contains(t[0]));
        }
    } else {
        let x = s.last();
        assert(s.contains(x));
        let j = choose|j: int| 0 <= j < t.len() && t[j] == x;
        let t2 = t.remove(j);
        let s2 = s.drop_last();
        assert forall|y: usize| s2.contains(y) <==> t2.contains(y) by {
            if s2.contains(y) {
                let i = choose|i: int| 0 <= i < s2.len() && s2[i] == y;
                assert(s.contains(y));
                assert(y != x);
                let k = choose|k: int| 0 <= k < t.len() && t[k] == y;
                if k < j {
                    assert(t2[k] == y);
                } else {
                    assert(t2[k - 1] == y);
                }
            }
            if t2.contains(y) {
                let k = choose|k: int| 0 <= k < t2.len() && t2[k] == y;
                if k < j {
                    assert(t[k] == y);
                } else {
                    assert(t[k + 1] == y);
                }
                assert(t.contains(y));
                assert(y != x);
                let i = choose|i: int| 0 <= i < s.len() && s[i] == y;
                assert(s2[i] == y);
            }
        }
        assert(t2.no_duplicates()) by {
            assert forall|p: int, q: int| 0 <= p < t2.len() && 0 <= q < t2.len() && p != q
                implies t2[p] != t2[q] by {
                let pp = if p < j { p } else { p + 1 };
                let qq = if q < j { q } else { q + 1 };
                assert(t2[p] == t[pp]);
                assert(t2[q] == t[qq]);
            }
        }
        lemma_same_members_same_total(a, s2, t2);
        lemma_total_remove(a, t, j);
    }
}

/// Two increasing sequences with the same elements are equal.
pub proof fn lemma_increasing_same_members_equal(s: Seq<usize>, t: Seq<usize>)
    requires
        increasing(s),
        increasing(t),
        same_members(s, t),
    ensures
        s == t,
    decreases s.len(),
{
    if s.len() == 0 {
        if t.len() > 0 {
            assert(t.contains(t[0]));
        }
        assert(s =~= t);
    } else {
        assert(s.contains(s[0]));
        assert(t.len() > 0);
        assert(t.contains(t[0]));
        let i = choose|i: int| 0 <= i < s.len() && s[i] == t[0];
        let j = choose|j: int| 0 <= j < t.len() && t[j] == s[0];
        assert(s[0] <= s[i]);
        assert(t[0] <= t[j]);
        assert(s[0] == t[0]);
        let s2 = s.drop_first();
        let t2 = t.drop_first();
        assert forall|y: usize| s2.contains(y) <==> t2.contains(y) by {
            if s2.contains(y) {
                let p = choose|p: int| 0 <= p < s2.len() && s2[p] == y;
                assert(s[p + 1] == y);
                assert(s.contains(y));
                let q = choose|q: int| 0 <= q < t.len() && t[q] == y;
                assert(y > s[0]);
                assert(q != 0);
                assert(t2[q - 1] == y);
            }
            if t2.contains(y) {
                let p = choose|p: int| 0 <= p < t2.len() && t2[p] == y;
                assert(t[p + 1] == y);
                assert(t.contains(y));
                let q = choose|q: int| 0 <= q < s.len() && s[q] == y;
                assert(y > t[0]);
                assert(q != 0);
                assert(s2[q - 1] == y);
            }
        }
        lemma_increasing_same_members_equal(s2, t2);
        assert(s =~= seq![s[0]] + s2);
        assert(t =~= seq![t[0]] + t2);
    }
}

/// An increasing sequence has no duplicates.
pub proof fn lemma_increasing_no_dup(s: Seq<usize>)
    requires
        increasing(s),
    ensures
        s.no_duplicates(),
{
    assert forall|i: int, j: int| 0 <= i < s.len() && 0 <= j < s.len() && i != j
        implies s[i] != s[j] by {
        if i < j {
            assert(s[i] < s[j]);
        } else {
            assert(s[j] < s[i]);
        }
    }
}

/// An increasing sequence bounded by `n` has at most `n` elements.
pub proof fn lemma_increasing_len(s: Seq<usize>, n: int)
    requires
        increasing(s),
        bounded_by(s, n),
        0 <= n,
    ensures
        s.len() <= n,
    decreases s.len(),
{
    if s.len() > 0 {
        let t = s.drop_last();
        assert(bounded_by(t, s.last() as int)) by {
            assert forall|i: int| 0 <= i < t.len() implies t[i] < s.last() by {
                assert(s[i] < s[s.len() - 1]);
            }
        }
        assert(increasing(t));
        lemma_increasing_len(t, s.last() as int);
        assert(s[s.len() - 1] < n);
        assert(t.len() == s.len() - 1);
        assert(s.last() == s[s.len() - 1]);
    }
}

} // verus!
