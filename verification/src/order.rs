//! The order a process list is sorted in, for each sort key.

use vstd::prelude::*;
use std::cmp::Ordering;
use vstd::utf8::encode_utf8;
use crate::procs::{ProcRow, SortKey, lowercase_bytes, to_lowercase};

verus! {

/// -1, 0 or 1 as `a` is below, equal to or above `b`.
pub open spec fn int_sign(a: int, b: int) -> int {
    if a < b {
        -1
    } else if a > b {
        1
    } else {
        0
    }
}

/// The lexicographic comparison of two byte strings, as -1, 0 or 1; this is
/// the order of `str`, which compares the bytes of its UTF-8 text.
pub open spec fn bytes_sign(a: Seq<u8>, b: Seq<u8>) -> int
    decreases a.len(),
{
    if a.len() == 0 {
        if b.len() == 0 {
            0
        } else {
            -1
        }
    } else if b.len() == 0 {
        1
    } else if a[0] < b[0] {
        -1
    } else if a[0] > b[0] {
        1
    } else {
        bytes_sign(a.skip(1), b.skip(1))
    }
}

/// The comparison `first`, with ties broken by `tie`.
pub open spec fn chain_sign(first: int, tie: int) -> int {
    if first != 0 {
        first
    } else {
        tie
    }
}

/// What a row is compared by: a text, then three numbers, in this order.
pub struct RowKey {
    pub text: Seq<u8>,
    pub first: int,
    pub second: int,
    pub third: int,
}

/// The comparison of two row keys, as -1, 0 or 1.
pub open spec fn key_sign(a: RowKey, b: RowKey) -> int {
    chain_sign(
        bytes_sign(a.text, b.text),
        chain_sign(
            int_sign(a.first, b.first),
            chain_sign(int_sign(a.second, b.second), int_sign(a.third, b.third)),
        ),
    )
}

/// What a row is compared by under `key`: CPU, then memory, then PID; memory,
/// then CPU, then PID; PID, then CPU, then memory; the lowercase name, then
/// CPU, then PID.
pub open spec fn row_key(r: ProcRow, key: SortKey) -> RowKey {
    match key {
        SortKey::Cpu => RowKey { text: seq![], first: r.cpu_rank as int, second: r.mem_mb as int, third: r.pid as int },
        SortKey::Mem => RowKey { text: seq![], first: r.mem_mb as int, second: r.cpu_rank as int, third: r.pid as int },
        SortKey::Pid => RowKey { text: seq![], first: r.pid as int, second: r.cpu_rank as int, third: r.mem_mb as int },
        SortKey::Name => RowKey {
            text: lowercase_bytes(r.name@),
            first: r.cpu_rank as int,
            second: r.pid as int,
            third: 0,
        },
    }
}

/// The comparison of two rows under `key`, as -1, 0 or 1.
pub open spec fn row_sign(a: ProcRow, b: ProcRow, key: SortKey) -> int {
    key_sign(row_key(a, key), row_key(b, key))
}

proof fn lemma_bytes_sign(a: Seq<u8>, b: Seq<u8>)
    ensures
        -1 <= bytes_sign(a, b) <= 1,
        bytes_sign(a, b) == -bytes_sign(b, a),
        (bytes_sign(a, b) == 0) == (a == b),
    decreases a.len(),
{
    if a.len() > 0 && b.len() > 0 && a[0] == b[0] {
        lemma_bytes_sign(a.skip(1), b.skip(1));
        if a.skip(1) == b.skip(1) {
            assert(a =~= seq![a[0]] + a.skip(1));
            assert(b =~= seq![b[0]] + b.skip(1));
        }
        if a == b {
            assert(a.skip(1) =~= b.skip(1));
        }
    } else if a.len() == 0 && b.len() == 0 {
        assert(a =~= b);
    }
}

proof fn lemma_bytes_sign_trans(a: Seq<u8>, b: Seq<u8>, c: Seq<u8>)
    requires
        bytes_sign(a, b) <= 0,
        bytes_sign(b, c) <= 0,
    ensures
        bytes_sign(a, c) <= 0,
        bytes_sign(a, b) < 0 || bytes_sign(b, c) < 0 ==> bytes_sign(a, c) < 0,
    decreases a.len(),
{
    if a.len() > 0 && b.len() > 0 && c.len() > 0 && a[0] == b[0] && b[0] == c[0] {
        lemma_bytes_sign_trans(a.skip(1), b.skip(1), c.skip(1));
    }
}

/// Row keys are compared by a total preorder whose ties are exactly equal
/// keys.
pub proof fn lemma_key_sign(a: RowKey, b: RowKey)
    ensures
        -1 <= key_sign(a, b) <= 1,
        key_sign(a, b) == -key_sign(b, a),
        (key_sign(a, b) == 0) == (a == b),
{
    lemma_bytes_sign(a.text, b.text);
}

/// The comparison of row keys is transitive.
pub proof fn lemma_key_sign_trans(a: RowKey, b: RowKey, c: RowKey)
    requires
        key_sign(a, b) <= 0,
        key_sign(b, c) <= 0,
    ensures
        key_sign(a, c) <= 0,
        key_sign(a, b) < 0 || key_sign(b, c) < 0 ==> key_sign(a, c) < 0,
{
    lemma_bytes_sign(a.text, b.text);
    lemma_bytes_sign(b.text, c.text);
    lemma_bytes_sign(a.text, c.text);
    if bytes_sign(a.text, b.text) <= 0 && bytes_sign(b.text, c.text) <= 0 {
        lemma_bytes_sign_trans(a.text, b.text, c.text);
    }
}

proof fn lemma_bytes_sign_first_difference(x: Seq<u8>, y: Seq<u8>, k: int)
    requires
        0 <= k < x.len(),
        k < y.len(),
        forall|t: int| 0 <= t < k ==> x[t] == y[t],
        x[k] < y[k],
    ensures
        bytes_sign(x, y) == -1,
    decreases k,
{
    if k > 0 {
        assert(x[0] == y[0]);
        assert forall|t: int| 0 <= t < k - 1 implies #[trigger] x.skip(1)[t] == y.skip(1)[t] by {
            assert(x[t + 1] == y[t + 1]);
        }
        lemma_bytes_sign_first_difference(x.skip(1), y.skip(1), k - 1);
    }
}

proof fn lemma_bytes_sign_proper_prefix(x: Seq<u8>, y: Seq<u8>)
    requires
        x.len() < y.len(),
        forall|t: int| 0 <= t < x.len() ==> x[t] == y[t],
    ensures
        bytes_sign(x, y) == -1,
    decreases x.len(),
{
    if x.len() > 0 {
        assert(x[0] == y[0]);
        assert forall|t: int| 0 <= t < x.len() - 1 implies #[trigger] x.skip(1)[t] == y.skip(1)[t] by {
            assert(x[t + 1] == y[t + 1]);
        }
        lemma_bytes_sign_proper_prefix(x.skip(1), y.skip(1));
    }
}

/// Under the name key, rows are ordered by their whole lowercase names,
/// byte by byte as `str` orders text, whatever their CPU usage and PID: the
/// row whose name has the smaller byte at the first place where the names
/// differ comes first, and a name that is a proper prefix of the other comes
/// first.
pub proof fn lemma_name_key_orders_by_whole_name(a: ProcRow, b: ProcRow, k: int)
    ensures
        ({
            let x = lowercase_bytes(a.name@);
            let y = lowercase_bytes(b.name@);
            0 <= k < x.len() && k < y.len() && x.take(k) == y.take(k) && x[k] < y[k]
        }) ==> row_sign(a, b, SortKey::Name) == -1 && row_sign(b, a, SortKey::Name) == 1,
        ({
            let x = lowercase_bytes(a.name@);
            let y = lowercase_bytes(b.name@);
            x.len() < y.len() && y.take(x.len() as int) == x
        }) ==> row_sign(a, b, SortKey::Name) == -1 && row_sign(b, a, SortKey::Name) == 1,
{
    let x = lowercase_bytes(a.name@);
    let y = lowercase_bytes(b.name@);
    lemma_bytes_sign(x, y);
    if 0 <= k < x.len() && k < y.len() && x.take(k) == y.take(k) && x[k] < y[k] {
        assert forall|t: int| 0 <= t < k implies x[t] == y[t] by {
            assert(x.take(k)[t] == y.take(k)[t]);
        }
        lemma_bytes_sign_first_difference(x, y, k);
    }
    if x.len() < y.len() && y.take(x.len() as int) == x {
        assert forall|t: int| 0 <= t < x.len() implies x[t] == y[t] by {
            assert(y.take(x.len() as int)[t] == y[t]);
        }
        lemma_bytes_sign_proper_prefix(x, y);
    }
}

fn bytes_sign_exec(a: &[u8], b: &[u8]) -> (r: i8)
    ensures
        r == bytes_sign(a@, b@),
{
    let n = a.len();
    let m = b.len();
    let mut i: usize = 0;
    assert(a@.skip(0) =~= a@);
    assert(b@.skip(0) =~= b@);
    while i < n && i < m
        invariant
            n == a@.len(),
            m == b@.len(),
            i <= n,
            i <= m,
            bytes_sign(a@.skip(i as int), b@.skip(i as int)) == bytes_sign(a@, b@),
        decreases n - i,
    {
        if a[i] < b[i] {
            return -1;
        }
        if a[i] > b[i] {
            return 1;
        }
        assert(a@.skip(i as int).skip(1) =~= a@.skip(i + 1));
        assert(b@.skip(i as int).skip(1) =~= b@.skip(i + 1));
        i = i + 1;
    }
    if i < n {
        1
    } else if i < m {
        -1
    } else {
        0
    }
}

fn sign_i32(a: i32, b: i32) -> (r: i8)
    ensures
        r == int_sign(a as int, b as int),
{
    if a < b {
        -1
    } else if a > b {
        1
    } else {
        0
    }
}

fn sign_u32(a: u32, b: u32) -> (r: i8)
    ensures
        r == int_sign(a as int, b as int),
{
    if a < b {
        -1
    } else if a > b {
        1
    } else {
        0
    }
}

fn sign_u64(a: u64, b: u64) -> (r: i8)
    ensures
        r == int_sign(a as int, b as int),
{
    if a < b {
        -1
    } else if a > b {
        1
    } else {
        0
    }
}

fn chain(first: i8, tie: i8) -> (r: i8)
    ensures
        r == chain_sign(first as int, tie as int),
{
    if first != 0 {
        first
    } else {
        tie
    }
}

/// The comparison of two lowercase names as `str` orders them: by their
/// UTF-8 bytes, as -1, 0 or 1.
pub fn compare_lowercase(a: &str, b: &str) -> (r: i8)
    ensures
        r == bytes_sign(encode_utf8(a@), encode_utf8(b@)),
{
    bytes_sign_exec(a.as_bytes(), b.as_bytes())
}

/// The comparison of two rows under `key`, as -1, 0 or 1.
pub fn row_sign_exec(a: &ProcRow, b: &ProcRow, key: SortKey) -> (r: i8)
    ensures
        r == row_sign(*a, *b, key),
{
    match key {
        SortKey::Cpu => chain(
            sign_i32(a.cpu_rank, b.cpu_rank),
            chain(sign_u64(a.mem_mb, b.mem_mb), sign_u32(a.pid, b.pid)),
        ),
        SortKey::Mem => chain(
            sign_u64(a.mem_mb, b.mem_mb),
            chain(sign_i32(a.cpu_rank, b.cpu_rank), sign_u32(a.pid, b.pid)),
        ),
        SortKey::Pid => chain(
            sign_u32(a.pid, b.pid),
            chain(sign_i32(a.cpu_rank, b.cpu_rank), sign_u64(a.mem_mb, b.mem_mb)),
        ),
        SortKey::Name => {
            let la = to_lowercase(a.name.as_str());
            let lb = to_lowercase(b.name.as_str());
            let text = compare_lowercase(la.as_str(), lb.as_str());
            let nums = chain(sign_i32(a.cpu_rank, b.cpu_rank), sign_u32(a.pid, b.pid));
            chain(text, nums)
        },
    }
}

/// The `Ordering` that a comparison result stands for.
pub open spec fn ordering_of(s: int) -> Ordering {
    if s < 0 {
        Ordering::Less
    } else if s > 0 {
        Ordering::Greater
    } else {
        Ordering::Equal
    }
}

/// Compares two rows under `key`: by CPU, then memory, then PID; by memory,
/// then CPU, then PID; by PID, then CPU, then memory; or by lowercase name,
/// then CPU, then PID.
pub fn compare(a: &ProcRow, b: &ProcRow, key: SortKey) -> (r: Ordering)
    ensures
        r == ordering_of(row_sign(*a, *b, key)),
{
    let s = row_sign_exec(a, b, key);
    if s < 0 {
        Ordering::Less
    } else if s > 0 {
        Ordering::Greater
    } else {
        Ordering::Equal
    }
}

} // verus!
