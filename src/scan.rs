//! Splitting a byte stream into terminated records, and carrying the open
//! record of one chunk over to the next.
use vstd::prelude::*;
use crate::record::first_occur;

verus! {

/// Reads `s` left to right: the records closed by `term` so far, and the
/// bytes of the record still open.
pub open spec fn scan(s: Seq<u8>, term: u8) -> (Seq<Seq<u8>>, Seq<u8>)
    decreases s.len(),
{
    if s.len() == 0 {
        (Seq::empty(), Seq::empty())
    } else {
        let (done, open) = scan(s.drop_last(), term);
        if s.last() == term {
            (done.push(open), Seq::empty())
        } else {
            (done, open.push(s.last()))
        }
    }
}

/// All records of `s`: the terminated ones, then the unterminated tail when
/// it is not empty.
pub open spec fn records(s: Seq<u8>, term: u8) -> Seq<Seq<u8>> {
    let (done, open) = scan(s, term);
    if open.len() > 0 {
        done.push(open)
    } else {
        done
    }
}

pub open spec fn free_of(s: Seq<u8>, term: u8) -> bool {
    forall|i: int| 0 <= i < s.len() ==> s[i] != term
}

/// The chunks joined in order.
pub open spec fn concat(chunks: Seq<Seq<u8>>) -> Seq<u8>
    decreases chunks.len(),
{
    if chunks.len() == 0 {
        Seq::empty()
    } else {
        concat(chunks.drop_last()) + chunks.last()
    }
}

/// Feeds the chunks one by one, each read after the fragment left open by
/// the ones before: the records closed so far and the open fragment.
pub open spec fn replay(chunks: Seq<Seq<u8>>, term: u8) -> (Seq<Seq<u8>>, Seq<u8>)
    decreases chunks.len(),
{
    if chunks.len() == 0 {
        (Seq::empty(), Seq::empty())
    } else {
        let (emitted, carry) = replay(chunks.drop_last(), term);
        let (done, open) = scan(carry + chunks.last(), term);
        (emitted + done, open)
    }
}

/// The records handed out when the chunks are fed one by one and the last
/// open fragment is flushed at the end of the stream.
pub open spec fn chunked_records(chunks: Seq<Seq<u8>>, term: u8) -> Seq<Seq<u8>> {
    let (emitted, carry) = replay(chunks, term);
    if carry.len() > 0 {
        emitted.push(carry)
    } else {
        emitted
    }
}

pub proof fn lemma_scan_open_free(s: Seq<u8>, term: u8)
    ensures
        free_of(scan(s, term).1, term),
        scan(s, term).0.len() + scan(s, term).1.len() <= s.len(),
    decreases s.len(),
{
    if s.len() > 0 {
        lemma_scan_open_free(s.drop_last(), term);
    }
}

pub proof fn lemma_scan_free(s: Seq<u8>, term: u8)
    requires
        free_of(s, term),
    ensures
        scan(s, term) == (Seq::<Seq<u8>>::empty(), s),
    decreases s.len(),
{
    if s.len() > 0 {
        lemma_scan_free(s.drop_last(), term);
        assert(s.drop_last().push(s.last()) =~= s);
    }
}

pub proof fn lemma_scan_closed(s: Seq<u8>, term: u8)
    requires
        s.len() > 0,
        s.last() == term,
    ensures
        scan(s, term).1 == Seq::<u8>::empty(),
{
}

/// Reading `a` then `b` is reading `b` after the fragment that `a` left open.
pub proof fn lemma_scan_append(a: Seq<u8>, b: Seq<u8>, term: u8)
    ensures
        scan(a + b, term) == (scan(a, term).0 + scan(scan(a, term).1 + b, term).0, scan(
            scan(a, term).1 + b,
            term,
        ).1),
    decreases b.len(),
{
    let c = scan(a, term).1;
    if b.len() == 0 {
        assert(a + b =~= a);
        assert(c + b =~= c);
        lemma_scan_open_free(a, term);
        lemma_scan_free(c, term);
        assert(scan(a, term).0 + Seq::<Seq<u8>>::empty() =~= scan(a, term).0);
    } else {
        let b0 = b.drop_last();
        lemma_scan_append(a, b0, term);
        assert((a + b).drop_last() =~= a + b0);
        assert((c + b).drop_last() =~= c + b0);
        assert((a + b).last() == b.last());
        assert((c + b).last() == b.last());
        let d0 = scan(a, term).0;
        let (dd, oo) = scan(c + b0, term);
        assert((d0 + dd).push(oo) =~= d0 + dd.push(oo));
    }
}

/// Feeding chunk by chunk reads exactly what reading their concatenation
/// reads.
pub proof fn lemma_replay(chunks: Seq<Seq<u8>>, term: u8)
    ensures
        replay(chunks, term) == scan(concat(chunks), term),
    decreases chunks.len(),
{
    if chunks.len() > 0 {
        lemma_replay(chunks.drop_last(), term);
        lemma_scan_append(concat(chunks.drop_last()), chunks.last(), term);
    }
}

/// Chunking never changes the records: whatever the boundaries, the records
/// handed out are those of the unsplit stream, read as one chunk.
pub proof fn lemma_chunking_preserves_records(chunks: Seq<Seq<u8>>, term: u8)
    ensures
        chunked_records(chunks, term) == records(concat(chunks), term),
        chunked_records(chunks, term) == chunked_records(seq![concat(chunks)], term),
{
    lemma_replay(chunks, term);
    let whole = seq![concat(chunks)];
    lemma_replay(whole, term);
    assert(whole.drop_last() =~= Seq::<Seq<u8>>::empty());
    assert(concat(whole.drop_last()) == Seq::<u8>::empty());
    assert(whole.last() == concat(chunks));
    assert(Seq::<u8>::empty() + concat(chunks) =~= concat(chunks));
    assert(concat(whole) == concat(chunks));
}

/// Once a prefix of `s` ends on a record boundary, the records of `s` are
/// those of the prefix followed by those of the rest.
pub proof fn lemma_records_split(s: Seq<u8>, p: int, term: u8)
    requires
        0 <= p <= s.len(),
        scan(s.subrange(0, p), term).1 == Seq::<u8>::empty(),
    ensures
        records(s, term) == scan(s.subrange(0, p), term).0 + records(
            s.subrange(p, s.len() as int),
            term,
        ),
{
    let a = s.subrange(0, p);
    let b = s.subrange(p, s.len() as int);
    assert(a + b =~= s);
    lemma_scan_append(a, b, term);
    assert(Seq::<u8>::empty() + b =~= b);
    let (d, o) = scan(b, term);
    assert((scan(a, term).0 + d).push(o) =~= scan(a, term).0 + d.push(o));
}

/// The first record of `s` ends at its first terminator `q`.
pub proof fn lemma_records_first(s: Seq<u8>, q: int, term: u8)
    requires
        0 <= q < s.len(),
        s[q] == term,
        free_of(s.subrange(0, q), term),
    ensures
        records(s, term) == seq![s.subrange(0, q)] + records(
            s.subrange(q + 1, s.len() as int),
            term,
        ),
{
    let head = s.subrange(0, q + 1);
    assert(head.drop_last() =~= s.subrange(0, q));
    lemma_scan_free(s.subrange(0, q), term);
    assert(scan(head, term).0 =~= seq![s.subrange(0, q)]);
    lemma_records_split(s, q + 1, term);
}

/// A non-empty fragment without a terminator is one record.
pub proof fn lemma_records_free(s: Seq<u8>, term: u8)
    requires
        s.len() > 0,
        free_of(s, term),
    ensures
        records(s, term) == seq![s],
{
    lemma_scan_free(s, term);
    assert(Seq::<Seq<u8>>::empty().push(s) =~= seq![s]);
}

/// Index of the last `token` in `s`, if any.
pub fn last_occur(s: &[u8], token: u8) -> (r: Option<usize>)
    ensures
        match r {
            Some(i) => i < s@.len() && s@[i as int] == token && free_of(
                s@.subrange(i + 1, s@.len() as int),
                token,
            ),
            None => free_of(s@, token),
        },
{
    let mut i: usize = s.len();
    while i > 0
        invariant
            i <= s@.len(),
            forall|j: int| i <= j < s@.len() ==> s@[j] != token,
        decreases i,
    {
        if s[i - 1] == token {
            let k = i - 1;
            let ghost after = s@.subrange(k + 1, s@.len() as int);
            assert forall|j: int| 0 <= j < after.len() implies after[j] != token by {
                assert(after[j] == s@[k + 1 + j]);
            }
            return Some(k);
        }
        i = i - 1;
    }
    None
}

/// Where a chunk with at least one terminator splits: the record completed
/// by its first terminator, and the region `start..end` of whole records
/// after it, which ends with the chunk's last terminator.
pub struct ChunkSplit {
    pub boundary: Vec<u8>,
    pub start: usize,
    pub end: usize,
}

/// Holds the fragment of the record that is still open at the end of the
/// chunks read so far.
pub struct Reassembler {
    carry: Vec<u8>,
    terminator: u8,
}

impl Reassembler {
    pub closed spec fn carry(&self) -> Seq<u8> {
        self.carry@
    }

    pub closed spec fn term(&self) -> u8 {
        self.terminator
    }

    pub closed spec fn wf(&self) -> bool {
        free_of(self.carry@, self.terminator)
    }

    pub fn new(terminator: u8) -> (r: Reassembler)
        ensures
            r.wf(),
            r.carry() == Seq::<u8>::empty(),
            r.term() == terminator,
    {
        Reassembler { carry: Vec::new(), terminator }
    }

    pub fn terminator(&self) -> (r: u8)
        ensures
            r == self.term(),
    {
        self.terminator
    }

    /// Reads one chunk after the open fragment. Without a terminator in the
    /// chunk the whole chunk joins the fragment and `None` comes back.
    /// Otherwise the records closed in the chunk are the boundary record
    /// followed by the records of `chunk[start..end]`, and what follows the
    /// last terminator becomes the new fragment.
    pub fn split_chunk(&mut self, chunk: &[u8]) -> (r: Option<ChunkSplit>)
        requires
            old(self).wf(),
        ensures
            final(self).wf(),
            final(self).term() == old(self).term(),
            final(self).carry() == scan(old(self).carry() + chunk@, old(self).term()).1,
            match r {
                None => scan(old(self).carry() + chunk@, old(self).term()).0 == Seq::<
                    Seq<u8>,
                >::empty(),
                Some(s) => s.start <= s.end <= chunk@.len() && scan(
                    old(self).carry() + chunk@,
                    old(self).term(),
                ).0 == seq![s.boundary@] + records(
                    chunk@.subrange(s.start as int, s.end as int),
                    old(self).term(),
                ),
            },
    {
        let t = self.terminator;
        let ghost c0 = self.carry@;
        let ghost x = chunk@;
        proof {
            crate::record::lemma_first_index(x, t);
        }
        let f = match first_occur(chunk, t) {
            Some(f) => f,
            None => {
                self.carry.extend_from_slice(chunk);
                proof {
                    assert(free_of(c0 + x, t)) by {
                        assert forall|i: int| 0 <= i < (c0 + x).len() implies (c0 + x)[i] != t by {
                            if i >= c0.len() {
                                assert((c0 + x)[i] == x[i - c0.len()]);
                            }
                        }
                    }
                    lemma_scan_free(c0 + x, t);
                }
                return None;
            },
        };
        let l = match last_occur(chunk, t) {
            Some(l) => l,
            None => {
                proof {
                    assert(x[f as int] == t);
                }
                return None;
            },
        };
        let mut boundary = self.carry.clone();
        boundary.extend_from_slice(&chunk[0..f]);
        let len = chunk.len();
        let start = f + 1;
        let end = l + 1;
        let mut rest: Vec<u8> = Vec::new();
        rest.extend_from_slice(&chunk[end..len]);
        self.carry = rest;
        proof {
            assert(f <= l) by {
                if l < f {
                    assert(x[l as int] == t);
                }
            }
            let head = c0 + x.subrange(0, f + 1);
            let region = x.subrange(start as int, end as int);
            let tail = x.subrange(end as int, len as int);
            assert(boundary@ =~= c0 + x.subrange(0, f as int));
            assert(c0 + x =~= head + (region + tail));
            assert(free_of(boundary@, t)) by {
                assert forall|i: int| 0 <= i < boundary@.len() implies boundary@[i] != t by {
                    if i >= c0.len() {
                        assert(boundary@[i] == x[i - c0.len()]);
                    }
                }
            }
            assert(head.drop_last() =~= boundary@);
            lemma_scan_free(boundary@, t);
            assert(scan(head, t) == (seq![boundary@], Seq::<u8>::empty()));
            lemma_scan_append(head, region + tail, t);
            assert(Seq::<u8>::empty() + (region + tail) =~= region + tail);
            lemma_scan_append(region, tail, t);
            if region.len() > 0 {
                assert(region.last() == x[l as int]);
                lemma_scan_closed(region, t);
            } else {
                assert(scan(region, t).1 == Seq::<u8>::empty());
            }
            assert(Seq::<u8>::empty() + tail =~= tail);
            assert(free_of(tail, t)) by {
                assert forall|i: int| 0 <= i < tail.len() implies tail[i] != t by {
                    assert(tail[i] == x.subrange(l + 1, x.len() as int)[i]);
                }
            }
            lemma_scan_free(tail, t);
            assert(scan(region, t).0 + Seq::<Seq<u8>>::empty() =~= scan(region, t).0);
            assert(records(region, t) == scan(region, t).0);
            assert(rest@ =~= tail);
        }
        Some(ChunkSplit { boundary, start, end })
    }

    /// Ends the stream: the open fragment, if not empty, is the last record.
    pub fn finish(&mut self) -> (r: Option<Vec<u8>>)
        requires
            old(self).wf(),
        ensures
            final(self).wf(),
            final(self).term() == old(self).term(),
            final(self).carry() == Seq::<u8>::empty(),
            match r {
                Some(v) => old(self).carry().len() > 0 && v@ == old(self).carry(),
                None => old(self).carry().len() == 0,
            },
    {
        if self.carry.len() == 0 {
            None
        } else {
            let mut last: Vec<u8> = Vec::new();
            std::mem::swap(&mut last, &mut self.carry);
            Some(last)
        }
    }
}

} // verus!
