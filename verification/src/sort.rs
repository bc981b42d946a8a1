//! Sorting a process list by a sort key, and keeping a selected process
//! selected across the sort.

use vstd::prelude::*;
use vstd::seq_lib::lemma_multiset_commutative;
use crate::procs::{ProcRow, SortKey};
use crate::order::{RowKey, row_key, row_sign, row_sign_exec, lemma_key_sign,
    lemma_key_sign_trans};

verus! {

/// `s` is in ascending order under `key`.
pub open spec fn sorted_by(s: Seq<ProcRow>, key: SortKey) -> bool {
    forall|i: int, j: int| 0 <= i < j < s.len() ==> row_sign(#[trigger] s[i], #[trigger] s[j], key) <= 0
}

/// The rows whose key under `key` is `k`.
pub open spec fn key_class(key: SortKey, k: RowKey) -> spec_fn(ProcRow) -> bool {
    |y: ProcRow| row_key(y, key) == k
}

/// `s` holds the rows of `o` with the same key under `key` in the same
/// order as `o` does: the arrangement of a stable sort.
pub open spec fn stable_with(s: Seq<ProcRow>, o: Seq<ProcRow>, key: SortKey) -> bool {
    forall|k: RowKey| #[trigger] s.filter(key_class(key, k)) == o.filter(key_class(key, k))
}

/// `s` in ascending order, whether it was sorted ascending or descending.
pub open spec fn ascending_view(s: Seq<ProcRow>, descending: bool) -> Seq<ProcRow> {
    if descending {
        s.reverse()
    } else {
        s
    }
}

proof fn lemma_filter_none(s: Seq<ProcRow>, p: spec_fn(ProcRow) -> bool)
    requires
        forall|i: int| 0 <= i < s.len() ==> !p(#[trigger] s[i]),
    ensures
        s.filter(p) == Seq::<ProcRow>::empty(),
    decreases s.len(),
{
    reveal(Seq::filter);
    if s.len() > 0 {
        let d = s.drop_last();
        assert forall|i: int| 0 <= i < d.len() implies !p(#[trigger] d[i]) by {
            assert(d[i] == s[i]);
        }
        lemma_filter_none(d, p);
        assert(!p(s[s.len() - 1]));
    }
}

proof fn lemma_filter_single(x: ProcRow, p: spec_fn(ProcRow) -> bool)
    ensures
        seq![x].filter(p) == if p(x) {
            seq![x]
        } else {
            Seq::<ProcRow>::empty()
        },
{
    reveal(Seq::filter);
    let s = seq![x];
    assert(s.drop_last() =~= Seq::<ProcRow>::empty());
    assert(s.drop_last().filter(p) =~= Seq::<ProcRow>::empty());
    assert(s.last() == x);
    if p(x) {
        assert(Seq::<ProcRow>::empty().push(x) =~= seq![x]);
    }
}

/// Inserting `x` at `j` into the sorted, stably arranged prefix `p` of the
/// rows `o`, where `j` is the first place whose row is above `x`, gives a
/// sorted, stably arranged prefix one row longer.
proof fn lemma_insert_step(p: Seq<ProcRow>, o: Seq<ProcRow>, x: ProcRow, j: int, key: SortKey)
    requires
        0 <= j <= p.len(),
        p.len() < o.len(),
        o[p.len() as int] == x,
        sorted_by(p, key),
        stable_with(p, o.take(p.len() as int), key),
        forall|t: int| 0 <= t < j ==> row_sign(#[trigger] p[t], x, key) <= 0,
        j == p.len() || row_sign(p[j], x, key) > 0,
    ensures
        ({
            let q = p.take(j) + seq![x] + p.skip(j);
            &&& sorted_by(q, key)
            &&& stable_with(q, o.take(p.len() + 1int), key)
        }),
{
    let n = p.len() as int;
    let a = p.take(j);
    let b = p.skip(j);
    let q = a + seq![x] + b;
    // Every row from `j` on is above `x`.
    assert forall|t: int| j <= t < n implies row_sign(#[trigger] p[t], x, key) > 0 by {
        if t > j {
            lemma_key_sign(row_key(p[t], key), row_key(p[j], key));
            lemma_key_sign(row_key(x, key), row_key(p[j], key));
            lemma_key_sign(row_key(x, key), row_key(p[t], key));
            if row_sign(p[t], x, key) <= 0 {
                lemma_key_sign_trans(row_key(p[j], key), row_key(p[t], key), row_key(x, key));
            }
        }
    }
    assert forall|s: int, t: int| 0 <= s < t < q.len() implies row_sign(#[trigger] q[s], #[trigger] q[t], key)
        <= 0 by {
        if s < j && t < j {
            assert(q[s] == p[s] && q[t] == p[t]);
        } else if s < j && t == j {
            assert(q[s] == p[s] && q[t] == x);
        } else if s < j {
            assert(q[s] == p[s] && q[t] == p[t - 1]);
        } else if s == j {
            assert(q[s] == x && q[t] == p[t - 1]);
            lemma_key_sign(row_key(p[t - 1], key), row_key(x, key));
        } else {
            assert(q[s] == p[s - 1] && q[t] == p[t - 1]);
        }
    }
    let o1 = o.take(n);
    let o2 = o.take(n + 1);
    assert(o2 =~= o1 + seq![x]);
    assert(p =~= a + b);
    assert forall|k: RowKey| #[trigger] q.filter(key_class(key, k)) == o2.filter(key_class(key, k)) by {
        let c = key_class(key, k);
        Seq::filter_distributes_over_add(a + seq![x], b, c);
        Seq::filter_distributes_over_add(a, seq![x], c);
        Seq::filter_distributes_over_add(a, b, c);
        Seq::filter_distributes_over_add(o1, seq![x], c);
        lemma_filter_single(x, c);
        assert(p.filter(c) == o1.filter(c));
        if c(x) {
            assert forall|i: int| 0 <= i < b.len() implies !c(#[trigger] b[i]) by {
                assert(b[i] == p[i + j]);
                lemma_key_sign(row_key(p[i + j], key), row_key(x, key));
            }
            lemma_filter_none(b, c);
            assert(q.filter(c) =~= o2.filter(c));
        } else {
            assert(q.filter(c) =~= o2.filter(c));
        }
    }
}

/// Sorts `v` in ascending order under `key`, keeping rows with equal keys
/// in their order.
fn insertion_sort(v: &mut Vec<ProcRow>, key: SortKey)
    ensures
        sorted_by(final(v)@, key),
        stable_with(final(v)@, old(v)@, key),
        final(v)@.to_multiset() == old(v)@.to_multiset(),
{
    broadcast use vstd::multiset::group_multiset_axioms;
    broadcast use lemma_multiset_commutative;

    let ghost o = v@;
    let n = v.len();
    let mut i: usize = 0;
    assert(v@.take(0) =~= Seq::<ProcRow>::empty());
    assert(o.take(0) =~= Seq::<ProcRow>::empty());
    assert(v@.skip(0) =~= o);
    proof {
        reveal(Seq::filter);
    }
    while i < n
        invariant
            n == v@.len(),
            n == o.len(),
            i <= n,
            sorted_by(v@.take(i as int), key),
            stable_with(v@.take(i as int), o.take(i as int), key),
            v@.skip(i as int) == o.skip(i as int),
            v@.to_multiset() == o.to_multiset(),
        decreases n - i,
    {
        let ghost p = v@.take(i as int);
        let ghost rest = v@.skip(i as int);
        assert(v@ =~= p + rest);
        assert(rest[0] == o[i as int]);
        let mut j: usize = 0;
        while j < i && row_sign_exec(&v[j], &v[i], key) <= 0
            invariant
                n == v@.len(),
                i < n,
                j <= i,
                p == v@.take(i as int),
                forall|t: int| 0 <= t < j ==> row_sign(#[trigger] p[t], v@[i as int], key) <= 0,
            decreases i - j,
        {
            j = j + 1;
        }
        let ghost x0 = v@[i as int];
        proof {
            if j < i {
                assert(row_sign(p[j as int], x0, key) > 0);
            }
            lemma_insert_step(p, o, x0, j as int, key);
        }
        let ghost vv = v@;
        let x = v.remove(i);
        v.insert(j, x);
        let ghost q = p.take(j as int) + seq![x0] + p.skip(j as int);
        assert(v@ =~= q + rest.skip(1));
        assert(v@.take(i + 1) =~= q);
        assert(v@.skip(i + 1) =~= o.skip(i + 1));
        proof {
            let a = p.take(j as int);
            let b = p.skip(j as int);
            let xs = seq![x0];
            let c = rest.skip(1);
            assert(vv =~= (a + b) + (xs + c));
            assert(v@ =~= ((a + xs) + b) + c);
            lemma_multiset_commutative(a + b, xs + c);
            lemma_multiset_commutative(a, b);
            lemma_multiset_commutative(xs, c);
            lemma_multiset_commutative((a + xs) + b, c);
            lemma_multiset_commutative(a + xs, b);
            lemma_multiset_commutative(a, xs);
            assert(v@.to_multiset() =~= vv.to_multiset());
        }
        i = i + 1;
    }
    assert(v@.take(n as int) =~= v@);
    assert(o.take(n as int) =~= o);
}

/// Puts `v` in reverse order.
fn reverse_rows(v: &mut Vec<ProcRow>)
    ensures
        final(v)@ == old(v)@.reverse(),
{
    let ghost o = v@;
    let n = v.len();
    let mut r: Vec<ProcRow> = Vec::new();
    while v.len() > 0
        invariant
            n == o.len(),
            r@.len() + v@.len() == n,
            v@ == o.take(v@.len() as int),
            forall|k: int| 0 <= k < r@.len() ==> #[trigger] r@[k] == o[n - 1 - k],
        decreases v@.len(),
    {
        let x = v.pop().unwrap();
        r.push(x);
        assert(v@ =~= o.take(v@.len() as int));
    }
    *v = r;
    assert(v@ =~= o.reverse());
}

/// Whether a row of `s` has the PID `pid`.
pub open spec fn has_pid(s: Seq<ProcRow>, pid: u32) -> bool {
    exists|i: int| 0 <= i < s.len() && #[trigger] s[i].pid == pid
}

/// `r` is the index to keep selected in `s`: the first row with the anchor
/// PID when there is one; otherwise `fallback`, brought within the list;
/// 0 for an empty list.
pub open spec fn selection_in(s: Seq<ProcRow>, anchor_pid: Option<u32>, fallback: usize, r: int) -> bool {
    let fallback_pick = if fallback < s.len() {
        fallback as int
    } else {
        s.len() - 1
    };
    if s.len() == 0 {
        r == 0
    } else {
        &&& 0 <= r < s.len()
        &&& match anchor_pid {
            Some(pid) => if has_pid(s, pid) {
                &&& s[r].pid == pid
                &&& forall|k: int| 0 <= k < r ==> #[trigger] s[k].pid != pid
            } else {
                r == fallback_pick
            },
            None => r == fallback_pick,
        }
    }
}

/// An anchor PID that no row has changes nothing: the selection is the one
/// made with no anchor, `fallback` where it lies within the list and the
/// last row otherwise. A PID that some row has selects the first such row.
pub proof fn lemma_absent_anchor_falls_back(s: Seq<ProcRow>, pid: u32, fallback: usize, r: int, r0: int)
    requires
        selection_in(s, Some(pid), fallback, r),
        selection_in(s, None, fallback, r0),
    ensures
        (forall|k: int| 0 <= k < s.len() ==> s[k].pid != pid) ==> {
            &&& r == r0
            &&& s.len() > 0 && fallback < s.len() ==> r == fallback
            &&& s.len() > 0 && fallback >= s.len() ==> r == s.len() - 1
        },
        forall|j: int| 0 <= j < s.len() && s[j].pid == pid ==> {
            &&& s[r].pid == pid
            &&& r <= j
        },
{
    if s.len() > 0 {
        if has_pid(s, pid) {
            let i = choose|i: int| 0 <= i < s.len() && #[trigger] s[i].pid == pid;
            assert(s[i].pid == pid);
        }
        assert forall|j: int| 0 <= j < s.len() && s[j].pid == pid implies s[r].pid == pid && r <= j by {
            assert(has_pid(s, pid));
            if j < r {
                assert(s[j].pid != pid);
            }
        }
    }
}

/// The selection is determined: two indices that both fit the rule for the
/// same list, anchor and fallback are the same index.
pub proof fn lemma_selection_unique(s: Seq<ProcRow>, anchor_pid: Option<u32>, fallback: usize, r1: int, r2: int)
    requires
        selection_in(s, anchor_pid, fallback, r1),
        selection_in(s, anchor_pid, fallback, r2),
    ensures
        r1 == r2,
{
    if s.len() > 0 {
        if let Some(pid) = anchor_pid {
            if has_pid(s, pid) {
                if r1 < r2 {
                    assert(s[r1].pid != pid);
                } else if r2 < r1 {
                    assert(s[r2].pid != pid);
                }
            }
        }
    }
}

/// The index to keep selected in `processes`: the first row with the anchor
/// PID when there is one; otherwise `fallback`, brought within the list;
/// 0 for an empty list.
pub fn resolve_anchor(processes: &Vec<ProcRow>, anchor_pid: Option<u32>, fallback: usize) -> (r: usize)
    ensures
        selection_in(processes@, anchor_pid, fallback, r as int),
{
    let n = processes.len();
    if n == 0 {
        return 0;
    }
    if let Some(pid) = anchor_pid {
        let mut i: usize = 0;
        while i < n
            invariant
                n == processes@.len(),
                i <= n,
                anchor_pid == Some(pid),
                forall|k: int| 0 <= k < i ==> #[trigger] processes@[k].pid != pid,
            decreases n - i,
        {
            if processes[i].pid == pid {
                assert(processes@[i as int].pid == pid);
                return i;
            }
            i = i + 1;
        }
    }
    if fallback < n - 1 {
        fallback
    } else {
        n - 1
    }
}

/// `s` holds the rows of `o`, sorted under `key` by a stable sort: in
/// ascending order, or, when `descending`, in the reverse of that order.
pub open spec fn sorted_from(s: Seq<ProcRow>, o: Seq<ProcRow>, key: SortKey, descending: bool) -> bool {
    &&& sorted_by(ascending_view(s, descending), key)
    &&& stable_with(ascending_view(s, descending), o, key)
    &&& s.to_multiset() == o.to_multiset()
}

/// A row with the PID `pid` in a list is still in any rearrangement of it.
pub proof fn lemma_rearranged_keeps_pid(o: Seq<ProcRow>, s: Seq<ProcRow>, pid: u32)
    requires
        s.to_multiset() == o.to_multiset(),
        has_pid(o, pid),
    ensures
        has_pid(s, pid),
{
    o.to_multiset_ensures();
    s.to_multiset_ensures();
    let i = choose|i: int| 0 <= i < o.len() && #[trigger] o[i].pid == pid;
    assert(o.contains(o[i]));
    assert(o.to_multiset().count(o[i]) > 0);
    assert(s.to_multiset().count(o[i]) > 0);
    assert(s.contains(o[i]));
    let j = choose|j: int| 0 <= j < s.len() && s[j] == o[i];
    assert(s[j].pid == pid);
}

/// Sorts `processes` under `key`, ascending or descending, and returns the
/// index to keep selected: the first row with the anchor PID when there is
/// one, otherwise `fallback_index` brought within the list. A descending
/// sort is the ascending stable sort reversed, so rows with equal keys come
/// out in reverse order.
pub fn sort_impl(
    processes: &mut Vec<ProcRow>,
    key: SortKey,
    descending: bool,
    anchor_pid: Option<u32>,
    fallback_index: usize,
) -> (r: usize)
    ensures
        sorted_from(final(processes)@, old(processes)@, key, descending),
        selection_in(final(processes)@, anchor_pid, fallback_index, r as int),
        anchor_pid matches Some(pid) ==> (has_pid(old(processes)@, pid)
            ==> final(processes)@[r as int].pid == pid),
{
    insertion_sort(processes, key);
    if descending {
        let ghost s = processes@;
        reverse_rows(processes);
        assert(processes@.reverse() =~= s);
        proof {
            s.lemma_reverse_to_multiset();
        }
    }
    let r = resolve_anchor(processes, anchor_pid, fallback_index);
    proof {
        if let Some(pid) = anchor_pid {
            if has_pid(old(processes)@, pid) {
                lemma_rearranged_keeps_pid(old(processes)@, processes@, pid);
            }
        }
    }
    r
}

} // verus!
