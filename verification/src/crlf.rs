//! Conversion of CRLF line endings to LF, on byte buffers held in memory.

use vstd::prelude::*;

verus! {

/// The carriage-return byte `\r`.
pub const CR: u8 = 13;

/// The line-feed byte `\n`.
pub const LF: u8 = 10;

/// `s` holds a CRLF pair starting at index `i`.
pub open spec fn crlf_at(s: Seq<u8>, i: int) -> bool {
    0 <= i && i + 1 < s.len() && s[i] == CR && s[i + 1] == LF
}

/// `s` holds at least one CRLF pair.
pub open spec fn has_crlf(s: Seq<u8>) -> bool {
    exists|i: int| #[trigger] crlf_at(s, i)
}

/// `s` scanned from the front, each CRLF pair replaced by a single LF; every
/// other byte, a lone CR among them, is kept.
pub open spec fn crlf_to_lf(s: Seq<u8>) -> Seq<u8>
    decreases s.len(),
{
    if s.len() == 0 {
        seq![]
    } else if s.len() >= 2 && s[0] == CR && s[1] == LF {
        seq![LF] + crlf_to_lf(s.skip(2))
    } else {
        seq![s[0]] + crlf_to_lf(s.skip(1))
    }
}

/// Converts every CRLF pair of `input` to LF; a CR that no LF follows is
/// kept as it is.
pub fn memory(input: &[u8]) -> (out: Vec<u8>)
    ensures
        out@ == crlf_to_lf(input@),
{
    let n = input.len();
    let mut out: Vec<u8> = Vec::with_capacity(n);
    let mut i: usize = 0;
    assert(input@.skip(0) =~= input@);
    while i < n
        invariant
            n == input@.len(),
            i <= n,
            out@ + crlf_to_lf(input@.skip(i as int)) == crlf_to_lf(input@),
        decreases n - i,
    {
        let ghost rest = input@.skip(i as int);
        if input[i] == CR && i + 1 < n && input[i + 1] == LF {
            assert(rest.skip(2) =~= input@.skip(i + 2));
            out.push(LF);
            i = i + 2;
        } else {
            assert(rest.skip(1) =~= input@.skip(i + 1));
            out.push(input[i]);
            i = i + 1;
        }
        assert(out@ + crlf_to_lf(input@.skip(i as int)) =~= crlf_to_lf(input@));
    }
    assert(input@.skip(n as int) =~= Seq::<u8>::empty());
    assert(out@ =~= out@ + crlf_to_lf(input@.skip(n as int)));
    out
}

/// Whether `data` holds a CRLF pair.
pub fn contains_crlf(data: &[u8]) -> (r: bool)
    ensures
        r == has_crlf(data@),
{
    let n = data.len();
    let mut i: usize = 0;
    while i < n
        invariant
            n == data@.len(),
            i <= n,
            forall|k: int| 0 <= k < i ==> !#[trigger] crlf_at(data@, k),
        decreases n - i,
    {
        if data[i] == CR && i + 1 < n && data[i + 1] == LF {
            assert(crlf_at(data@, i as int));
            return true;
        }
        i = i + 1;
    }
    false
}


/// A CRLF pair of `s` that does not start at index 0 is one of `s.skip(1)`.
pub proof fn lemma_has_crlf_skip1(s: Seq<u8>)
    requires
        s.len() > 0,
    ensures
        has_crlf(s) == (crlf_at(s, 0) || has_crlf(s.skip(1))),
{
    let t = s.skip(1);
    if has_crlf(s) && !crlf_at(s, 0) {
        let i = choose|i: int| #[trigger] crlf_at(s, i);
        assert(crlf_at(t, i - 1));
    }
    if has_crlf(t) {
        let j = choose|j: int| #[trigger] crlf_at(t, j);
        assert(crlf_at(s, j + 1));
    }
}

/// The conversion never lengthens a buffer, and shortens every buffer that
/// holds a CRLF pair.
pub proof fn lemma_crlf_to_lf_len(s: Seq<u8>)
    ensures
        crlf_to_lf(s).len() <= s.len(),
        has_crlf(s) ==> crlf_to_lf(s).len() < s.len(),
    decreases s.len(),
{
    if s.len() > 0 {
        lemma_has_crlf_skip1(s);
        if s.len() >= 2 && s[0] == CR && s[1] == LF {
            lemma_crlf_to_lf_len(s.skip(2));
        } else {
            lemma_crlf_to_lf_len(s.skip(1));
        }
    }
}

/// A buffer without a CRLF pair is left as it is.
proof fn lemma_no_crlf_identity(s: Seq<u8>)
    requires
        !has_crlf(s),
    ensures
        crlf_to_lf(s) == s,
    decreases s.len(),
{
    if s.len() > 0 {
        lemma_has_crlf_skip1(s);
        assert(!crlf_at(s, 0));
        lemma_no_crlf_identity(s.skip(1));
        assert(seq![s[0]] + s.skip(1) =~= s);
    }
}

/// The conversion leaves a buffer unchanged exactly when the buffer holds no
/// CRLF pair: comparing a buffer with its conversion tells whether it had
/// DOS line endings.
pub proof fn lemma_unchanged_iff_no_crlf(s: Seq<u8>)
    ensures
        (crlf_to_lf(s) == s) <==> !has_crlf(s),
{
    lemma_crlf_to_lf_len(s);
    if !has_crlf(s) {
        lemma_no_crlf_identity(s);
    }
}

/// A CRLF pair straddles the boundary between `a` and `b`.
pub open spec fn straddles(a: Seq<u8>, b: Seq<u8>) -> bool {
    a.len() > 0 && b.len() > 0 && a.last() == CR && b[0] == LF
}

/// Converting two buffers one after the other gives the conversion of their
/// concatenation, unless a CRLF pair straddles the boundary.
pub proof fn lemma_crlf_to_lf_concat(a: Seq<u8>, b: Seq<u8>)
    requires
        !straddles(a, b),
    ensures
        crlf_to_lf(a + b) == crlf_to_lf(a) + crlf_to_lf(b),
    decreases a.len(),
{
    let ab = a + b;
    if a.len() == 0 {
        assert(ab =~= b);
        assert(crlf_to_lf(a) =~= Seq::<u8>::empty());
        assert(crlf_to_lf(a) + crlf_to_lf(b) =~= crlf_to_lf(b));
    } else if a.len() == 1 {
        assert(ab.skip(1) =~= b);
        assert(a.skip(1) =~= Seq::<u8>::empty());
        assert(crlf_to_lf(a.skip(1)) =~= Seq::<u8>::empty());
        assert(crlf_to_lf(a) =~= seq![a[0]]);
        assert(crlf_to_lf(ab) =~= seq![a[0]] + crlf_to_lf(b));
    } else if a[0] == CR && a[1] == LF {
        let a2 = a.skip(2);
        assert(ab.skip(2) =~= a2 + b);
        if a2.len() > 0 {
            assert(a2.last() == a.last());
        }
        lemma_crlf_to_lf_concat(a2, b);
        assert(crlf_to_lf(ab) =~= crlf_to_lf(a) + crlf_to_lf(b));
    } else {
        let a1 = a.skip(1);
        assert(ab.skip(1) =~= a1 + b);
        assert(a1.last() == a.last());
        lemma_crlf_to_lf_concat(a1, b);
        assert(crlf_to_lf(ab) =~= crlf_to_lf(a) + crlf_to_lf(b));
    }
}

/// The concatenation of two buffers holds a CRLF pair exactly when one of
/// them does or a pair straddles the boundary.
pub proof fn lemma_has_crlf_concat(a: Seq<u8>, b: Seq<u8>)
    ensures
        has_crlf(a + b) == (has_crlf(a) || has_crlf(b) || straddles(a, b)),
{
    let ab = a + b;
    if has_crlf(a) {
        let i = choose|i: int| #[trigger] crlf_at(a, i);
        assert(crlf_at(ab, i));
    }
    if has_crlf(b) {
        let i = choose|i: int| #[trigger] crlf_at(b, i);
        assert(crlf_at(ab, a.len() + i));
    }
    if straddles(a, b) {
        assert(crlf_at(ab, a.len() - 1));
    }
    if has_crlf(ab) {
        let i = choose|i: int| #[trigger] crlf_at(ab, i);
        if i + 1 < a.len() {
            assert(crlf_at(a, i));
        } else if i >= a.len() {
            assert(crlf_at(b, i - a.len()));
        } else {
            assert(straddles(a, b));
        }
    }
}

} // verus!
