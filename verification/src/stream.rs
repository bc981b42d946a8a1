//! CRLF to LF conversion of a stream that arrives in successive reads,
//! without holding the whole stream in memory.
//!
//! The reads themselves are done by the caller; this module decides, for
//! each read, which bytes go out and what is carried to the next read.

use vstd::prelude::*;
use crate::crlf::{CR, LF, crlf_at, has_crlf, crlf_to_lf, lemma_has_crlf_skip1,
    lemma_crlf_to_lf_concat, lemma_has_crlf_concat};

verus! {

/// What a stream conversion found and wrote.
#[derive(Debug, Clone, Copy, PartialEq, Eq, Structural)]
pub struct ConvertResult {
    /// A CRLF pair was seen.
    pub has_crlf: bool,
    /// Number of bytes handed out for writing.
    pub bytes_written: u64,
}

impl Default for ConvertResult {
    fn default() -> (r: Self)
        ensures
            !r.has_crlf,
            r.bytes_written == 0,
    {
        ConvertResult { has_crlf: false, bytes_written: 0 }
    }
}

/// `s` is non-empty and ends with a carriage return.
pub open spec fn ends_with_cr(s: Seq<u8>) -> bool {
    s.len() > 0 && s.last() == CR
}

/// `c` scanned like [`crlf_to_lf`], except that a carriage return that ends
/// `c` is held back instead of being written.
pub open spec fn held_scan(c: Seq<u8>) -> Seq<u8>
    decreases c.len(),
{
    if c.len() == 0 {
        seq![]
    } else if c.len() == 1 && c[0] == CR {
        seq![]
    } else if c.len() >= 2 && c[0] == CR && c[1] == LF {
        seq![LF] + held_scan(c.skip(2))
    } else {
        seq![c[0]] + held_scan(c.skip(1))
    }
}

/// A carriage return held back from the previous read meets a line feed at
/// the start of `chunk`.
pub open spec fn joins_lf(pending: bool, chunk: Seq<u8>) -> bool {
    pending && chunk.len() > 0 && chunk[0] == LF
}

/// The part of `chunk` that is scanned after a joined line feed.
pub open spec fn chunk_rest(pending: bool, chunk: Seq<u8>) -> Seq<u8> {
    if joins_lf(pending, chunk) {
        chunk.skip(1)
    } else {
        chunk
    }
}

/// The bytes written for `chunk` when `pending` says whether a carriage
/// return was held back before it: the held-back carriage return becomes a
/// line feed with the line feed that starts `chunk`, and is written as it is
/// when `chunk` starts otherwise.
pub open spec fn chunk_output(pending: bool, chunk: Seq<u8>) -> Seq<u8> {
    (if joins_lf(pending, chunk) {
        seq![LF]
    } else if pending {
        seq![CR]
    } else {
        seq![]
    }) + held_scan(chunk_rest(pending, chunk))
}

/// Whether a carriage return is held back after `chunk`: exactly when the
/// part of `chunk` that was scanned ends with one.
pub open spec fn next_pending(pending: bool, chunk: Seq<u8>) -> bool {
    ends_with_cr(chunk_rest(pending, chunk))
}

/// Whether a CRLF pair is seen while `chunk` is handled.
pub open spec fn chunk_found(pending: bool, chunk: Seq<u8>) -> bool {
    joins_lf(pending, chunk) || has_crlf(chunk_rest(pending, chunk))
}

/// The state after the given reads: whether a carriage return is held back,
/// whether a CRLF pair was seen, and the bytes written so far.
pub open spec fn stream_fold(reads: Seq<Seq<u8>>) -> (bool, bool, Seq<u8>)
    decreases reads.len(),
{
    if reads.len() == 0 {
        (false, false, seq![])
    } else {
        let (p, f, o) = stream_fold(reads.drop_last());
        let c = reads.last();
        (next_pending(p, c), f || chunk_found(p, c), o + chunk_output(p, c))
    }
}

/// All bytes written for the given reads, the end of input included.
pub open spec fn stream_output(reads: Seq<Seq<u8>>) -> Seq<u8> {
    stream_fold(reads).2 + if stream_fold(reads).0 {
        seq![CR]
    } else {
        seq![]
    }
}

/// Whether a CRLF pair is seen over the given reads.
pub open spec fn stream_found(reads: Seq<Seq<u8>>) -> bool {
    stream_fold(reads).1
}

/// The reads before the first empty one: an empty read ends the input.
pub open spec fn before_end(reads: Seq<Seq<u8>>) -> Seq<Seq<u8>>
    decreases reads.len(),
{
    if reads.len() == 0 || reads[0].len() == 0 {
        seq![]
    } else {
        seq![reads[0]] + before_end(reads.skip(1))
    }
}

/// The bytes of all reads, in order.
pub open spec fn concat_reads(reads: Seq<Seq<u8>>) -> Seq<u8>
    decreases reads.len(),
{
    if reads.len() == 0 {
        seq![]
    } else {
        concat_reads(reads.drop_last()) + reads.last()
    }
}

/// Incremental CRLF to LF converter: feed it each non-empty read, then
/// finish it at the end of input.
pub struct StreamConverter {
    prev_was_cr: bool,
    result: ConvertResult,
}

impl StreamConverter {
    /// A carriage return of the last read is held back.
    pub closed spec fn pending(&self) -> bool {
        self.prev_was_cr
    }

    /// A CRLF pair was seen so far.
    pub closed spec fn found(&self) -> bool {
        self.result.has_crlf
    }

    /// Bytes handed out so far.
    pub closed spec fn written(&self) -> nat {
        self.result.bytes_written as nat
    }

    /// Bytes handed out so far.
    pub fn bytes_written(&self) -> (r: u64)
        ensures
            r == self.written(),
    {
        self.result.bytes_written
    }

    /// A converter that has seen nothing.
    pub fn new() -> (r: Self)
        ensures
            !r.pending(),
            !r.found(),
            r.written() == 0,
    {
        StreamConverter { prev_was_cr: false, result: ConvertResult::default() }
    }

    /// Converts one non-empty read and returns the bytes to write for it.
    pub fn push_chunk(&mut self, chunk: &[u8]) -> (out: Vec<u8>)
        requires
            chunk@.len() > 0,
            old(self).written() + chunk_output(old(self).pending(), chunk@).len() <= u64::MAX,
        ensures
            out@ == chunk_output(old(self).pending(), chunk@),
            final(self).pending() == next_pending(old(self).pending(), chunk@),
            final(self).found() == (old(self).found() || chunk_found(old(self).pending(), chunk@)),
            final(self).written() == old(self).written() + out@.len(),
    {
        let ghost pending = self.prev_was_cr;
        let n = chunk.len();
        let mut out: Vec<u8> = Vec::with_capacity(n);
        let mut i: usize = 0;
        let mut seen = false;
        let mut held = false;
        if self.prev_was_cr {
            if chunk[0] == LF {
                out.push(LF);
                i = 1;
                seen = true;
            } else {
                out.push(CR);
            }
            self.prev_was_cr = false;
        }
        let ghost start = i as int;
        let ghost rest = chunk_rest(pending, chunk@);
        assert(rest =~= chunk@.skip(start));
        assert(out@ + held_scan(chunk@.skip(i as int)) =~= chunk_output(pending, chunk@));
        while i < n
            invariant
                n == chunk@.len(),
                0 <= start <= i <= n,
                rest == chunk@.skip(start),
                out@ + held_scan(chunk@.skip(i as int)) == chunk_output(pending, chunk@),
                (seen || has_crlf(chunk@.skip(i as int))) == chunk_found(pending, chunk@),
                held ==> i == n && ends_with_cr(rest),
                !held && i == n ==> !ends_with_cr(rest),
            decreases n - i,
        {
            let ghost s = chunk@.skip(i as int);
            proof {
                lemma_has_crlf_skip1(s);
            }
            if chunk[i] == CR && i + 1 < n && chunk[i + 1] == LF {
                assert(crlf_at(s, 0));
                assert(s.skip(2) =~= chunk@.skip(i + 2));
                out.push(LF);
                i = i + 2;
                seen = true;
            } else if chunk[i] == CR && i + 1 == n {
                assert(s.skip(1) =~= Seq::<u8>::empty());
                assert(chunk@.skip(i + 1) =~= Seq::<u8>::empty());
                assert(held_scan(s) =~= Seq::<u8>::empty());
                held = true;
                i = i + 1;
            } else {
                assert(s.skip(1) =~= chunk@.skip(i + 1));
                out.push(chunk[i]);
                i = i + 1;
            }
            assert(out@ + held_scan(chunk@.skip(i as int)) =~= chunk_output(pending, chunk@));
            assert(rest.len() == n - start);
            assert(rest.last() == chunk@[n - 1]);
        }
        assert(chunk@.skip(n as int) =~= Seq::<u8>::empty());
        assert(!has_crlf(chunk@.skip(n as int)));
        assert(out@ =~= out@ + held_scan(chunk@.skip(n as int)));
        self.prev_was_cr = held;
        if seen {
            self.result.has_crlf = true;
        }
        self.result.bytes_written = self.result.bytes_written + out.len() as u64;
        out
    }

    /// Ends the input: writes out a carriage return that is still held back.
    pub fn finish(self) -> (r: (ConvertResult, Vec<u8>))
        requires
            self.pending() ==> self.written() + 1 <= u64::MAX,
        ensures
            r.1@ == (if self.pending() {
                seq![CR]
            } else {
                seq![]
            }),
            r.0.has_crlf == self.found(),
            r.0.bytes_written == self.written() + r.1@.len(),
    {
        let mut result = self.result;
        let mut out: Vec<u8> = Vec::new();
        if self.prev_was_cr {
            out.push(CR);
            result.bytes_written = result.bytes_written + 1;
        }
        (result, out)
    }
}


/// The reads up to an index `k` that are all non-empty, when `k` is the end
/// of the list or an empty read, are the reads before the end of input.
proof fn lemma_before_end(reads: Seq<Seq<u8>>, k: int)
    requires
        0 <= k <= reads.len(),
        forall|j: int| 0 <= j < k ==> #[trigger] reads[j].len() > 0,
        k == reads.len() || reads[k].len() == 0,
    ensures
        before_end(reads) == reads.take(k),
    decreases reads.len(),
{
    if reads.len() == 0 || reads[0].len() == 0 {
        assert(reads.take(k) =~= Seq::<Seq<u8>>::empty());
    } else {
        let t = reads.skip(1);
        assert forall|j: int| 0 <= j < k - 1 implies #[trigger] t[j].len() > 0 by {
            assert(t[j] == reads[j + 1]);
        }
        if k - 1 < t.len() {
            assert(t[k - 1] == reads[k]);
        }
        lemma_before_end(t, k - 1);
        assert(seq![reads[0]] + t.take(k - 1) =~= reads.take(k));
    }
}

/// The bytes written never shrink as reads come in.
proof fn lemma_fold_output_grows(reads: Seq<Seq<u8>>, i: int)
    requires
        0 <= i <= reads.len(),
    ensures
        stream_fold(reads.take(i)).2.len() <= stream_fold(reads).2.len(),
    decreases reads.len(),
{
    if i < reads.len() {
        let r = reads.drop_last();
        assert(r.take(i) =~= reads.take(i));
        lemma_fold_output_grows(r, i);
    } else {
        assert(reads.take(i) =~= reads);
    }
}

/// The contents of the given reads.
pub open spec fn reads_view(reads: Seq<Vec<u8>>) -> Seq<Seq<u8>> {
    reads.map_values(|v: Vec<u8>| v@)
}

/// Converts a stream given as its successive reads. An empty read ends the
/// input, as it does for a reader; the reads after it are not looked at.
/// Returns what was found and written, and the bytes to write.
pub fn stream(reads: &Vec<Vec<u8>>) -> (r: (ConvertResult, Vec<u8>))
    requires
        stream_output(before_end(reads_view(reads@))).len() <= u64::MAX,
    ensures
        r.1@ == stream_output(before_end(reads_view(reads@))),
        r.0.has_crlf == stream_found(before_end(reads_view(reads@))),
        r.0.bytes_written == r.1@.len(),
        r.1@ == crlf_to_lf(concat_reads(before_end(reads_view(reads@)))),
        r.0.has_crlf == has_crlf(concat_reads(before_end(reads_view(reads@)))),
{
    proof {
        lemma_stream_matches_memory(reads_view(reads@));
    }
    let ghost rs = reads_view(reads@);
    let n = reads.len();
    let mut k: usize = 0;
    while k < n && reads[k].len() > 0
        invariant
            n == rs.len(),
            n == reads@.len(),
            rs == reads_view(reads@),
            k <= n,
            forall|j: int| 0 <= j < k ==> #[trigger] rs[j].len() > 0,
        decreases n - k,
    {
        assert(rs[k as int] == reads@[k as int]@);
        k = k + 1;
    }
    proof {
        if k < n {
            assert(rs[k as int] == reads@[k as int]@);
        }
        lemma_before_end(rs, k as int);
    }
    let ghost ins = rs.take(k as int);
    let mut conv = StreamConverter::new();
    let mut out: Vec<u8> = Vec::new();
    let mut i: usize = 0;
    assert(ins.take(0) =~= Seq::<Seq<u8>>::empty());
    while i < k
        invariant
            n == rs.len(),
            k <= n,
            i <= k,
            ins == rs.take(k as int),
            rs == reads_view(reads@),
            forall|j: int| 0 <= j < k ==> #[trigger] rs[j].len() > 0,
            stream_output(ins).len() <= u64::MAX,
            conv.pending() == stream_fold(ins.take(i as int)).0,
            conv.found() == stream_fold(ins.take(i as int)).1,
            out@ == stream_fold(ins.take(i as int)).2,
            conv.written() == out@.len(),
        decreases k - i,
    {
        let ghost before = ins.take(i as int);
        let ghost after = ins.take(i + 1);
        assert(after.drop_last() =~= before);
        assert(rs[i as int] == reads@[i as int]@);
        assert(after.last() == reads@[i as int]@);
        proof {
            lemma_fold_output_grows(ins, i + 1);
        }
        let piece = conv.push_chunk(reads[i].as_slice());
        let mut piece = piece;
        out.append(&mut piece);
        i = i + 1;
    }
    assert(ins.take(k as int) =~= ins);
    let (result, tail) = conv.finish();
    let mut tail = tail;
    out.append(&mut tail);
    (result, out)
}

/// The held-back scan of a buffer, followed by the carriage return it holds
/// back, is the conversion of the buffer.
proof fn lemma_held_scan(c: Seq<u8>)
    ensures
        held_scan(c) + (if ends_with_cr(c) {
            seq![CR]
        } else {
            seq![]
        }) == crlf_to_lf(c),
    decreases c.len(),
{
    if c.len() == 0 {
        assert(held_scan(c) + seq![] =~= crlf_to_lf(c));
    } else if c.len() == 1 && c[0] == CR {
        assert(c.skip(1) =~= Seq::<u8>::empty());
        assert(crlf_to_lf(c.skip(1)) =~= Seq::<u8>::empty());
        assert(held_scan(c) + seq![CR] =~= crlf_to_lf(c));
    } else if c.len() >= 2 && c[0] == CR && c[1] == LF {
        let t = c.skip(2);
        lemma_held_scan(t);
        if t.len() > 0 {
            assert(t.last() == c.last());
        }
        assert(held_scan(c) + (if ends_with_cr(c) { seq![CR] } else { seq![] })
            =~= crlf_to_lf(c));
    } else {
        let t = c.skip(1);
        lemma_held_scan(t);
        if t.len() > 0 {
            assert(t.last() == c.last());
        }
        assert(held_scan(c) + (if ends_with_cr(c) { seq![CR] } else { seq![] })
            =~= crlf_to_lf(c));
    }
}

/// Every read is non-empty.
pub open spec fn all_nonempty(reads: Seq<Seq<u8>>) -> bool {
    forall|i: int| 0 <= i < reads.len() ==> #[trigger] reads[i].len() > 0
}

/// What the fold over non-empty reads holds, in terms of the
/// conversion of their concatenation.
proof fn lemma_fold_clean(reads: Seq<Seq<u8>>)
    requires
        all_nonempty(reads),
    ensures
        ({
            let (p, f, o) = stream_fold(reads);
            let all = concat_reads(reads);
            &&& p == ends_with_cr(all)
            &&& f == has_crlf(all)
            &&& o + (if p {
                seq![CR]
            } else {
                seq![]
            }) == crlf_to_lf(all)
        }),
    decreases reads.len(),
{
    if reads.len() == 0 {
        assert(crlf_to_lf(concat_reads(reads)) =~= Seq::<u8>::empty());
        assert(!has_crlf(Seq::<u8>::empty()));
    } else {
        let r = reads.drop_last();
        let c = reads.last();
        assert forall|i: int| 0 <= i < r.len() implies #[trigger] r[i].len() > 0 by {
            assert(r[i] == reads[i]);
        }
        lemma_fold_clean(r);
        let (p0, f0, o0) = stream_fold(r);
        let prev = concat_reads(r);
        let all = concat_reads(reads);
        assert(all == prev + c);
        assert(c.len() > 0) by {
            assert(reads[reads.len() - 1].len() > 0);
        }
        assert(all.last() == c.last());
        lemma_held_scan(chunk_rest(p0, c));
        if !p0 {
            lemma_crlf_to_lf_concat(prev, c);
            lemma_has_crlf_concat(prev, c);
            assert(stream_fold(reads).2 + (if stream_fold(reads).0 { seq![CR] } else { seq![] })
                =~= crlf_to_lf(all));
        } else if c[0] != LF {
            // The held-back carriage return is written as it is.
            let cr1: Seq<u8> = seq![CR];
            lemma_crlf_to_lf_concat(prev, c);
            lemma_has_crlf_concat(prev, c);
            assert(stream_fold(reads).2 + (if stream_fold(reads).0 { seq![CR] } else { seq![] })
                =~= crlf_to_lf(all));
        } else {
            // The held-back carriage return and the line feed that starts
            // this read are a CRLF pair.
            let q = prev.drop_last();
            let rest = c.skip(1);
            let crlf2: Seq<u8> = seq![CR, LF];
            let cr1: Seq<u8> = seq![CR];
            assert(prev =~= q + cr1);
            assert(all =~= (q + crlf2) + rest);
            assert(crlf2.skip(2) =~= Seq::<u8>::empty());
            assert(crlf_to_lf(crlf2.skip(2)) =~= Seq::<u8>::empty());
            assert(crlf_to_lf(crlf2) =~= seq![LF]);
            assert(cr1.skip(1) =~= Seq::<u8>::empty());
            assert(crlf_to_lf(cr1.skip(1)) =~= Seq::<u8>::empty());
            assert(crlf_to_lf(cr1) =~= cr1);
            lemma_crlf_to_lf_concat(q, cr1);
            lemma_crlf_to_lf_concat(q, crlf2);
            assert((q + crlf2).last() == LF);
            lemma_crlf_to_lf_concat(q + crlf2, rest);
            lemma_has_crlf_concat(prev, c);
            assert(o0 + cr1 == crlf_to_lf(q) + cr1);
            assert((o0 + cr1).drop_last() =~= o0);
            assert((crlf_to_lf(q) + cr1).drop_last() =~= crlf_to_lf(q));
            if rest.len() > 0 {
                assert(rest.last() == c.last());
            }
            assert(stream_fold(reads).2 + (if stream_fold(reads).0 { seq![CR] } else { seq![] })
                =~= crlf_to_lf(all));
        }
    }
}

/// The reads before the end of input are non-empty.
proof fn lemma_before_end_nonempty(reads: Seq<Seq<u8>>)
    ensures
        all_nonempty(before_end(reads)),
    decreases reads.len(),
{
    if reads.len() > 0 && reads[0].len() > 0 {
        lemma_before_end_nonempty(reads.skip(1));
        let b = before_end(reads);
        let t = before_end(reads.skip(1));
        assert forall|i: int| 0 <= i < b.len() implies #[trigger] b[i].len() > 0 by {
            if i > 0 {
                assert(b[i] == t[i - 1]);
            }
        }
    }
}

/// However the input is split into reads, the stream conversion writes
/// exactly what the in-memory conversion of the whole input gives, and
/// reports a CRLF pair exactly when the input holds one.
pub proof fn lemma_stream_matches_memory(reads: Seq<Seq<u8>>)
    ensures
        stream_output(before_end(reads)) == crlf_to_lf(concat_reads(before_end(reads))),
        stream_found(before_end(reads)) == has_crlf(concat_reads(before_end(reads))),
{
    lemma_before_end_nonempty(reads);
    lemma_fold_clean(before_end(reads));
}

} // verus!
