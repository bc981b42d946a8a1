//! The process list of a top-like monitor: its rows, the keys it is sorted
//! by, and filtering by name.

use vstd::prelude::*;
use vstd::utf8::encode_utf8;
use vstd::std_specs::cmp::PartialEqSpecImpl;
use crate::sort::{sort_impl, sorted_from, selection_in, has_pid};
use crate::text::str_eq;

verus! {

/// What `str::to_lowercase` gives for the text `s`.
pub uninterp spec fn lowercase(s: Seq<char>) -> Seq<char>;

/// Calls `str::to_lowercase` on `s`. The contract claims only that the
/// result is the one the name [`lowercase`] stands for: Unicode's case
/// mapping is not restated.
#[verifier::external_body]
pub(crate) fn to_lowercase(s: &str) -> (r: String)
    ensures
        r@ == lowercase(s@),
{
    s.to_lowercase()
}

/// One process of the list. The CPU usage is held as a rank: an integer
/// that orders rows as their CPU usage does, equal ranks for equal usage.
#[derive(Debug)]
pub struct ProcRow {
    pub pid: u32,
    pub name: String,
    pub cpu_rank: i32,
    pub mem_mb: u64,
}

impl ProcRow {
    /// A row with the given fields.
    pub fn new(pid: u32, name: &str, cpu_rank: i32, mem_mb: u64) -> (r: Self)
        ensures
            r.pid == pid,
            r.name@ == name@,
            r.cpu_rank == cpu_rank,
            r.mem_mb == mem_mb,
    {
        ProcRow { pid, name: name.to_owned(), cpu_rank, mem_mb }
    }
}

impl Clone for ProcRow {
    fn clone(&self) -> (r: Self)
        ensures
            r == *self,
    {
        ProcRow { pid: self.pid, name: self.name.clone(), cpu_rank: self.cpu_rank, mem_mb: self.mem_mb }
    }
}

impl PartialEq for ProcRow {
    fn eq(&self, other: &Self) -> (r: bool) {
        self.pid == other.pid && str_eq(self.name.as_str(), other.name.as_str())
            && self.cpu_rank == other.cpu_rank && self.mem_mb == other.mem_mb
    }
}

impl PartialEqSpecImpl for ProcRow {
    /// Two rows are equal when all four fields are.
    open spec fn obeys_eq_spec() -> bool {
        true
    }

    open spec fn eq_spec(&self, other: &Self) -> bool {
        &&& self.pid == other.pid
        &&& self.name@ == other.name@
        &&& self.cpu_rank == other.cpu_rank
        &&& self.mem_mb == other.mem_mb
    }
}

/// The key a process list is sorted by.
#[derive(Clone, Copy, Debug, PartialEq, Eq, Hash, Structural)]
pub enum SortKey {
    Cpu,
    Mem,
    Pid,
    Name,
}

impl Default for SortKey {
    fn default() -> (r: Self)
        ensures
            r == SortKey::Cpu,
    {
        SortKey::Cpu
    }
}

/// The key after `k` in the cycle CPU, memory, PID, name.
pub open spec fn next_key(k: SortKey) -> SortKey {
    match k {
        SortKey::Cpu => SortKey::Mem,
        SortKey::Mem => SortKey::Pid,
        SortKey::Pid => SortKey::Name,
        SortKey::Name => SortKey::Cpu,
    }
}

/// The label shown for `k`.
pub open spec fn key_label(k: SortKey) -> Seq<char> {
    match k {
        SortKey::Cpu => "CPU"@,
        SortKey::Mem => "MEM"@,
        SortKey::Pid => "PID"@,
        SortKey::Name => "NAME"@,
    }
}

impl SortKey {
    /// The next sort key: CPU, then memory, then PID, then name, then CPU.
    pub fn next(self) -> (r: Self)
        ensures
            r == next_key(self),
    {
        match self {
            SortKey::Cpu => SortKey::Mem,
            SortKey::Mem => SortKey::Pid,
            SortKey::Pid => SortKey::Name,
            SortKey::Name => SortKey::Cpu,
        }
    }

    /// The label shown for the sort key.
    pub fn label(self) -> (r: &'static str)
        ensures
            r@ == key_label(self),
    {
        match self {
            SortKey::Cpu => "CPU",
            SortKey::Mem => "MEM",
            SortKey::Pid => "PID",
            SortKey::Name => "NAME",
        }
    }
}

/// Cycling through the sort keys comes back to the start after four steps.
pub proof fn lemma_next_cycles(k: SortKey)
    ensures
        next_key(next_key(next_key(next_key(k)))) == k,
        next_key(k) != k,
{
}

/// Sorts `processes` under `key`, ascending or descending, and returns the
/// index to select afterwards: the index of the row with the anchor PID when
/// the list holds one, otherwise `fallback_index` brought within the list.
/// Rows with equal keys keep their order in an ascending sort and come out
/// reversed in a descending one.
pub fn sort_process_list(
    processes: &mut Vec<ProcRow>,
    key: SortKey,
    descending: bool,
    anchor_pid: Option<u32>,
    fallback_index: usize,
) -> (r: usize)
    ensures
        sorted_from(final(processes)@, old(processes)@, key, descending),
        selection_in(final(processes)@, anchor_pid, fallback_index, r as int),
        anchor_pid matches Some(pid) ==> (has_pid(old(processes)@, pid)
            ==> final(processes)@[r as int].pid == pid),
{
    sort_impl(processes, key, descending, anchor_pid, fallback_index)
}

/// The UTF-8 bytes of the lowercase form of `s`.
pub open spec fn lowercase_bytes(s: Seq<char>) -> Seq<u8> {
    encode_utf8(lowercase(s))
}

/// `needle` occurs in `hay` as a run of consecutive bytes.
pub open spec fn bytes_contain(hay: Seq<u8>, needle: Seq<u8>) -> bool {
    exists|i: int|
        0 <= i && i + needle.len() <= hay.len() && #[trigger] hay.subrange(i, i + needle.len())
            == needle
}

/// The row's name holds the query, case aside; every row matches the empty
/// query.
pub open spec fn matches_query(row: ProcRow, query: Seq<char>) -> bool {
    query.len() == 0 || bytes_contain(lowercase_bytes(row.name@), lowercase_bytes(query))
}

/// Whether `needle` occurs in `hay`.
fn contains_bytes(hay: &[u8], needle: &[u8]) -> (r: bool)
    ensures
        r == bytes_contain(hay@, needle@),
{
    let n = hay.len();
    let m = needle.len();
    if m > n {
        assert forall|i: int| 0 <= i && i + m <= n implies #[trigger] hay@.subrange(i, i + m)
            != needle@ by {}
        return false;
    }
    let mut i: usize = 0;
    while i <= n - m
        invariant
            n == hay@.len(),
            m == needle@.len(),
            m <= n,
            i <= n - m + 1,
            forall|k: int| 0 <= k < i ==> #[trigger] hay@.subrange(k, k + m) != needle@,
        decreases n - m + 1 - i,
    {
        let mut j: usize = 0;
        let mut same = true;
        while j < m
            invariant
                n == hay@.len(),
                m == needle@.len(),
                i + m <= n,
                j <= m,
                same == forall|t: int| 0 <= t < j ==> hay@[i + t] == needle@[t],
            decreases m - j,
        {
            if hay[i + j] != needle[j] {
                same = false;
            }
            j = j + 1;
        }
        if same {
            assert(hay@.subrange(i as int, i + m) =~= needle@);
            return true;
        }
        assert(hay@.subrange(i as int, i + m) != needle@) by {
            let t = choose|t: int| 0 <= t < m && hay@[i + t] != needle@[t];
            assert(hay@.subrange(i as int, i + m)[t] != needle@[t]);
        }
        i = i + 1;
    }
    assert forall|k: int| 0 <= k && k + m <= n implies #[trigger] hay@.subrange(k, k + m)
        != needle@ by {
        assert(k < i);
    }
    false
}

/// Whether the lowercase query `lower_query` occurs in the lowercase name
/// `lower_name`, compared as UTF-8 bytes as `str::contains` does.
pub fn lowercase_contains(lower_name: &str, lower_query: &str) -> (r: bool)
    ensures
        r == bytes_contain(encode_utf8(lower_name@), encode_utf8(lower_query@)),
{
    contains_bytes(lower_name.as_bytes(), lower_query.as_bytes())
}

/// The rows whose name holds `query`, case aside, in their order; all rows
/// for the empty query.
pub fn filter_processes(processes: &Vec<ProcRow>, query: &str) -> (r: Vec<ProcRow>)
    ensures
        r@ == processes@.filter(|p: ProcRow| matches_query(p, query@)),
{
    let ghost pred = |p: ProcRow| matches_query(p, query@);
    let n = processes.len();
    let mut r: Vec<ProcRow> = Vec::new();
    let empty = query.is_empty();
    let needle = to_lowercase(query);
    let mut i: usize = 0;
    assert(processes@.take(0) =~= Seq::<ProcRow>::empty());
    proof {
        reveal(Seq::filter);
    }
    while i < n
        invariant
            n == processes@.len(),
            i <= n,
            empty == (query@.len() == 0),
            needle@ == lowercase(query@),
            pred == (|p: ProcRow| matches_query(p, query@)),
            r@ == processes@.take(i as int).filter(pred),
        decreases n - i,
    {
        let p = &processes[i];
        let keep = if empty {
            true
        } else {
            let name = to_lowercase(p.name.as_str());
            lowercase_contains(name.as_str(), needle.as_str())
        };
        assert(pred(processes@[i as int]) == matches_query(processes@[i as int], query@));
        assert(keep == pred(processes@[i as int]));
        proof {
            reveal(Seq::filter);
            assert(processes@.take(i + 1).drop_last() =~= processes@.take(i as int));
        }
        if keep {
            r.push(p.clone());
        }
        i = i + 1;
    }
    assert(processes@.take(n as int) =~= processes@);
    r
}


/// A row is kept whenever the lowercase query occurs anywhere in its
/// lowercase name, at the start, in the middle or at the end: a name whose
/// lowercase bytes are `x`, then the query's, then `y`, is kept.
pub proof fn lemma_filter_keeps_names_holding_query(
    s: Seq<ProcRow>,
    query: Seq<char>,
    i: int,
    x: Seq<u8>,
    y: Seq<u8>,
)
    requires
        0 <= i < s.len(),
        lowercase_bytes(s[i].name@) == x + lowercase_bytes(query) + y,
    ensures
        s.filter(|p: ProcRow| matches_query(p, query)).contains(s[i]),
{
    let pred = |p: ProcRow| matches_query(p, query);
    let h = lowercase_bytes(s[i].name@);
    let q = lowercase_bytes(query);
    assert(h.subrange(x.len() as int, (x.len() + q.len()) as int) =~= q);
    assert(bytes_contain(h, q));
    assert(pred(s[i]));
    broadcast use vstd::seq_lib::group_filter_ensures;
}

/// Every kept row comes from the list and, unless the query is empty, its
/// lowercase name holds the lowercase query as a run of bytes.
pub proof fn lemma_filter_rows_hold_query(s: Seq<ProcRow>, query: Seq<char>, k: int)
    requires
        0 <= k < s.filter(|p: ProcRow| matches_query(p, query)).len(),
    ensures
        s.contains(s.filter(|p: ProcRow| matches_query(p, query))[k]),
        query.len() == 0 || exists|x: Seq<u8>, y: Seq<u8>|
            lowercase_bytes(s.filter(|p: ProcRow| matches_query(p, query))[k].name@)
                == #[trigger] (x + lowercase_bytes(query) + y),
{
    let pred = |p: ProcRow| matches_query(p, query);
    broadcast use vstd::seq_lib::group_filter_ensures;
    let r = s.filter(pred)[k];
    assert(pred(r));
    assert(s.filter(pred).contains(r));
    s.lemma_filter_contains_rev(pred, r);
    if query.len() > 0 {
        let h = lowercase_bytes(r.name@);
        let q = lowercase_bytes(query);
        let j = choose|j: int| 0 <= j && j + q.len() <= h.len() && #[trigger] h.subrange(j, j + q.len()) == q;
        let x = h.subrange(0, j);
        let y = h.subrange(j + q.len(), h.len() as int);
        assert(h =~= x + q + y);
    }
}

/// Every row matches the empty query: filtering by it keeps the whole list.
pub proof fn lemma_empty_query_keeps_all(s: Seq<ProcRow>, query: Seq<char>)
    requires
        query.len() == 0,
    ensures
        s.filter(|p: ProcRow| matches_query(p, query)) == s,
    decreases s.len(),
{
    reveal(Seq::filter);
    if s.len() > 0 {
        lemma_empty_query_keeps_all(s.drop_last(), query);
        assert(s.drop_last().push(s.last()) =~= s);
    }
}

/// Filtering a filtered list by the same query changes nothing.
pub proof fn lemma_filter_twice(s: Seq<ProcRow>, query: Seq<char>)
    ensures
        s.filter(|p: ProcRow| matches_query(p, query)).filter(|p: ProcRow| matches_query(p, query))
            == s.filter(|p: ProcRow| matches_query(p, query)),
    decreases s.len(),
{
    reveal(Seq::filter);
    let pred = |p: ProcRow| matches_query(p, query);
    if s.len() > 0 {
        lemma_filter_twice(s.drop_last(), query);
        let f = s.drop_last().filter(pred);
        if pred(s.last()) {
            assert(f.push(s.last()).drop_last() =~= f);
        }
    }
}

} // verus!
