//! An owned byte buffer plus the ordered line views into it, sortable in
//! place, together with the chunk stream that parses a byte source into
//! chunks while carrying partial trailing lines between reads.

use vstd::prelude::*;

use std::rc::Rc;

use vstd::multiset::Multiset;

use crate::config::Configuration;
use crate::error::SortError;
use crate::line::Line;
use crate::model::{
    no_newline, lines_of, unlines, lex_leq, key_of, after_delim, until_delim,
    lemma_lines_of_prefix, lemma_lines_of_unterminated, lemma_unlines_push,
    lemma_after_delim_at, lemma_after_delim_none, lemma_until_delim_at, lemma_until_delim_none,
    lemma_key_of_empty, lemma_to_multiset_map, lemma_lex_total, lemma_lex_trans,
};
use crate::source::ByteSource;

verus! {

broadcast use vstd::seq_lib::group_to_multiset_ensures;

/// Relies on memchr::memchr: the index of the first occurrence of `needle`
/// in `haystack`, or `None` when it does not occur.
#[verifier::external_body]
fn find_first_byte(needle: u8, haystack: &[u8]) -> (r: Option<usize>)
    ensures
        match r {
            Some(i) => i < haystack@.len() && haystack@[i as int] == needle && forall|j: int|
                0 <= j < i ==> haystack@[j] != needle,
            None => forall|j: int| 0 <= j < haystack@.len() ==> haystack@[j] != needle,
        },
{
    memchr::memchr(needle, haystack)
}

/// Relies on memchr::memrchr: the index of the last occurrence of `needle`
/// in `haystack`, or `None` when it does not occur.
#[verifier::external_body]
fn find_last_byte(needle: u8, haystack: &[u8]) -> (r: Option<usize>)
    ensures
        match r {
            Some(i) => i < haystack@.len() && haystack@[i as int] == needle && forall|j: int|
                i < j < haystack@.len() ==> haystack@[j] != needle,
            None => forall|j: int| 0 <= j < haystack@.len() ==> haystack@[j] != needle,
        },
{
    memchr::memrchr(needle, haystack)
}

/// The key range of the segment `[start, end)` of `buffer` under the given
/// delimiter and field index, as absolute offsets into the buffer.
fn find_key_range(buffer: &Vec<u8>, start: usize, end: usize, delimiter: u8, field: usize) -> (r: (
    usize,
    usize,
))
    requires
        start <= end <= buffer@.len(),
    ensures
        start <= r.0 <= r.1 <= end,
        buffer@.subrange(r.0 as int, r.1 as int) == key_of(
            buffer@.subrange(start as int, end as int),
            delimiter,
            field as nat,
        ),
{
    let ghost seg = buffer@.subrange(start as int, end as int);
    if field == 0 {
        return (start, end);
    }
    let mut f = field;
    let mut pos = start;
    while f > 0
        invariant
            start <= pos <= end <= buffer@.len(),
            seg == buffer@.subrange(start as int, end as int),
            f <= field,
            key_of(seg, delimiter, field as nat) == (if f > 0 {
                key_of(buffer@.subrange(pos as int, end as int), delimiter, f as nat)
            } else {
                until_delim(buffer@.subrange(pos as int, end as int), delimiter)
            }),
        decreases f,
    {
        let ghost suffix = buffer@.subrange(pos as int, end as int);
        let sl = vstd::slice::slice_subrange(buffer.as_slice(), pos, end);
        match find_first_byte(delimiter, sl) {
            Some(rel) => {
                proof {
                    lemma_after_delim_at(suffix, delimiter, rel as int);
                    assert(suffix.skip(rel + 1) =~= buffer@.subrange(
                        pos + rel + 1,
                        end as int,
                    ));
                }
                pos = pos + rel + 1;
                f = f - 1;
            },
            None => {
                proof {
                    lemma_after_delim_none(suffix, delimiter);
                    if f == 1 {
                        assert(key_of(suffix, delimiter, 1nat) == until_delim(
                            after_delim(suffix, delimiter),
                            delimiter,
                        ));
                    } else {
                        assert(key_of(suffix, delimiter, f as nat) == key_of(
                            after_delim(suffix, delimiter),
                            delimiter,
                            (f - 1) as nat,
                        ));
                        lemma_key_of_empty(delimiter, (f - 1) as nat);
                    }
                    assert(until_delim(Seq::<u8>::empty(), delimiter) == Seq::<u8>::empty());
                    assert(key_of(seg, delimiter, field as nat) == Seq::<u8>::empty());
                    assert(buffer@.subrange(end as int, end as int) =~= Seq::<u8>::empty());
                }
                return (end, end);
            },
        }
    }
    // the key runs from here to the next delimiter, or to the end of line
    let ghost suffix = buffer@.subrange(pos as int, end as int);
    let sl = vstd::slice::slice_subrange(buffer.as_slice(), pos, end);
    match find_first_byte(delimiter, sl) {
        Some(rel) => {
            proof {
                lemma_until_delim_at(suffix, delimiter, rel as int);
                assert(suffix.take(rel as int) =~= buffer@.subrange(pos as int, pos + rel));
            }
            (pos, pos + rel)
        },
        None => {
            proof {
                lemma_until_delim_none(suffix, delimiter);
            }
            (pos, end)
        },
    }
}



/// Where the next segment starts: one past the newline, or the limit.
fn next_segment_start(end: usize, limit: usize) -> (r: usize)
    requires
        end <= limit,
    ensures
        r as int == if (end as int) < limit as int {
            end as int + 1
        } else {
            limit as int
        },
        end < r || r == limit,
        r <= limit,
{
    if end < limit {
        end + 1
    } else {
        limit
    }
}

/// Where the current segment ends: at the newline found, or at the limit.
fn segment_end(found: Option<usize>, start: usize, limit: usize) -> (end: usize)
    requires
        start <= limit,
        found matches Some(rel) ==> rel < limit - start,
    ensures
        start <= end <= limit,
        end == match found {
            Some(rel) => start + rel as int,
            None => limit as int,
        },
{
    match found {
        Some(rel) => start + rel,
        None => limit,
    }
}

/// An owned buffer and the line views into it, with a one-pass read cursor.
pub struct Chunk {
    lines: Vec<Line>,
    current_line: usize,
}

impl Chunk {
    /// The line views held, in their current order.
    pub closed spec fn all_lines(&self) -> Seq<Line> {
        self.lines@
    }

    /// How many lines the one-pass iteration has already yielded.
    pub closed spec fn cursor(&self) -> int {
        self.current_line as int
    }

    /// Every held line view is well-formed.
    #[verifier::type_invariant]
    pub open spec fn chunk_wf(&self) -> bool {
        forall|i: int| 0 <= i < self.all_lines().len() ==> (#[trigger] self.all_lines()[i]).wf()
    }

    /// The lines not yet yielded by the one-pass iteration.
    pub open spec fn pending(&self) -> Seq<Line> {
        if self.cursor() <= self.all_lines().len() {
            self.all_lines().skip(self.cursor())
        } else {
            Seq::empty()
        }
    }

    /// The byte strings of all lines, in order.
    pub open spec fn bytes_seq(&self) -> Seq<Seq<u8>> {
        self.all_lines().map_values(|l: Line| l.sbytes())
    }

    /// The byte strings of the lines not yet yielded.
    pub open spec fn pending_bytes_seq(&self) -> Seq<Seq<u8>> {
        self.pending().map_values(|l: Line| l.sbytes())
    }

    /// Every line's stored key is its delimiter-selected key.
    pub open spec fn keyed_by(&self, d: u8, f: nat) -> bool {
        forall|i: int|
            0 <= i < self.all_lines().len() ==> (#[trigger] self.all_lines()[i]).keyed(d, f)
    }

    /// The lines are in non-decreasing key order.
    pub open spec fn sorted(&self) -> bool {
        forall|i: int, j: int|
            0 <= i < j < self.all_lines().len() ==> lex_leq(
                self.all_lines()[i].skey(),
                self.all_lines()[j].skey(),
            )
    }

    /// Assembles a chunk from parsed line views.
    pub(crate) fn from_lines(lines: Vec<Line>) -> (r: Chunk)
        requires
            forall|i: int| 0 <= i < lines@.len() ==> (#[trigger] lines@[i]).wf(),
        ensures
            r.all_lines() == lines@,
            r.cursor() == 0,
    {
        Chunk { lines, current_line: 0 }
    }

    /// A reference to one held line view.
    pub fn line(&self, index: usize) -> (r: &Line)
        requires
            index < self.all_lines().len(),
        ensures
            *r == self.all_lines()[index as int],
    {
        &self.lines[index]
    }

    /// Appends every held line, each followed by one newline byte, to `out`.
    pub fn write(&self, out: &mut Vec<u8>)
        ensures
            final(out)@ == old(out)@ + unlines(self.bytes_seq()),
    {
        let ghost prefix = out@;
        let mut i: usize = 0;
        proof {
            assert(unlines(self.bytes_seq().take(0)) =~= Seq::<u8>::empty());
            assert(out@ =~= prefix + unlines(self.bytes_seq().take(0)));
        }
        while i < self.lines.len()
            invariant
                i <= self.lines@.len(),
                self.bytes_seq().len() == self.lines@.len(),
                out@ == prefix + unlines(self.bytes_seq().take(i as int)),
            decreases self.lines@.len() - i,
        {
            self.lines[i].write(out);
            proof {
                lemma_unlines_push(self.bytes_seq().take(i as int), self.bytes_seq()[i as int]);
                assert(self.bytes_seq().take(i + 1) =~= self.bytes_seq().take(i as int).push(
                    self.bytes_seq()[i as int],
                ));
                assert(out@ =~= prefix + unlines(self.bytes_seq().take(i + 1)));
            }
            i = i + 1;
        }
        proof {
            assert(self.bytes_seq().take(self.lines@.len() as int) =~= self.bytes_seq());
        }
    }

    /// Yields the next line view of the one-pass iteration, or nothing when
    /// the chunk is exhausted.
    pub fn next(&mut self) -> (r: Option<Line>)
        ensures
            final(self).all_lines() == old(self).all_lines(),
            match r {
                Some(l) => old(self).pending().len() > 0 && l == old(self).pending()[0]
                    && final(self).pending() == old(self).pending().drop_first() && 0 <= old(
                    self,
                ).cursor() < old(self).all_lines().len() && l == old(self).all_lines()[old(
                    self,
                ).cursor()],
                None => old(self).pending().len() == 0 && final(self).pending() == old(self).pending(),
            },
    {
        proof {
            use_type_invariant(&*self);
        }
        if self.current_line < self.lines.len() {
            let l = self.lines[self.current_line].clone();
            self.current_line = self.current_line + 1;
            proof {
                assert(old(self).pending()[0] == l);
                assert(final(self).pending() =~= old(self).pending().drop_first());
                assert(l == old(self).all_lines()[old(self).cursor()]);
            }
            Some(l)
        } else {
            None
        }
    }

    /// Reorders the held line views into non-decreasing key order; the
    /// multiset of lines is unchanged.
    pub fn sort_unstable(&mut self)
        ensures
            final(self).all_lines().to_multiset() == old(self).all_lines().to_multiset(),
            final(self).bytes_seq().to_multiset() == old(self).bytes_seq().to_multiset(),
            final(self).all_lines().len() == old(self).all_lines().len(),
            final(self).cursor() == old(self).cursor(),
            final(self).sorted(),
    {
        proof {
            use_type_invariant(&*self);
        }
        let mut tmp: Vec<Line> = Vec::new();
        std::mem::swap(&mut self.lines, &mut tmp);
        proof {
            assert(tmp@ == old(self).all_lines());
            assert(forall|i: int|
                0 <= i < tmp@.len() ==> (#[trigger] tmp@[i]).wf());
        }
        let sorted = sort_lines(tmp);
        self.lines = sorted;
        proof {
            lemma_to_multiset_map(
                final(self).all_lines(),
                old(self).all_lines(),
                |l: Line| l.sbytes(),
            );
        }
    }
}

/// Merge sort over line views, ordered by their stored sort keys.
fn sort_lines(v: Vec<Line>) -> (r: Vec<Line>)
    requires
        forall|i: int| 0 <= i < v@.len() ==> (#[trigger] v@[i]).wf(),
    ensures
        r@.to_multiset() == v@.to_multiset(),
        r@.len() == v@.len(),
        forall|i: int| 0 <= i < r@.len() ==> (#[trigger] r@[i]).wf(),
        forall|i: int, j: int| 0 <= i < j < r@.len() ==> lex_leq(r@[i].skey(), r@[j].skey()),
    decreases v@.len(),
{
    if v.len() <= 1 {
        return v;
    }
    let mid = v.len() / 2;
    let mut v = v;
    let ghost v0 = v@;
    let right = v.split_off(mid);
    proof {
        assert(v@ + right@ =~= v0);
        vstd::seq_lib::lemma_multiset_commutative(v@, right@);
    }
    let ghost left0 = v@;
    let ghost right0 = right@;
    let left_sorted = sort_lines(v);
    let right_sorted = sort_lines(right);
    let r = merge_lines(left_sorted, right_sorted);
    proof {
        vstd::seq_lib::lemma_multiset_commutative(left_sorted@, right_sorted@);
    }
    r
}

/// Merges two runs of line views sorted by key into one.
fn merge_lines(a: Vec<Line>, b: Vec<Line>) -> (r: Vec<Line>)
    requires
        forall|i: int| 0 <= i < a@.len() ==> (#[trigger] a@[i]).wf(),
        forall|i: int| 0 <= i < b@.len() ==> (#[trigger] b@[i]).wf(),
        forall|i: int, j: int| 0 <= i < j < a@.len() ==> lex_leq(a@[i].skey(), a@[j].skey()),
        forall|i: int, j: int| 0 <= i < j < b@.len() ==> lex_leq(b@[i].skey(), b@[j].skey()),
    ensures
        r@.to_multiset() == (a@ + b@).to_multiset(),
        r@.len() == a@.len() + b@.len(),
        forall|i: int| 0 <= i < r@.len() ==> (#[trigger] r@[i]).wf(),
        forall|i: int, j: int| 0 <= i < j < r@.len() ==> lex_leq(r@[i].skey(), r@[j].skey()),
{
    let mut out: Vec<Line> = Vec::new();
    let mut i: usize = 0;
    let mut j: usize = 0;
    proof {
        vstd::seq_lib::lemma_multiset_commutative(a@, b@);
        assert(a@.take(0) =~= Seq::<Line>::empty());
        assert(b@.take(0) =~= Seq::<Line>::empty());
        assert((a@.take(0) + b@.take(0)).to_multiset() =~= Multiset::<Line>::empty());
        assert(out@.to_multiset() =~= Multiset::<Line>::empty());
    }
    while i < a.len() || j < b.len()
        invariant
            i <= a@.len(),
            j <= b@.len(),
            forall|m: int| 0 <= m < a@.len() ==> (#[trigger] a@[m]).wf(),
            forall|m: int| 0 <= m < b@.len() ==> (#[trigger] b@[m]).wf(),
            forall|m: int, n: int| 0 <= m < n < a@.len() ==> lex_leq(a@[m].skey(), a@[n].skey()),
            forall|m: int, n: int| 0 <= m < n < b@.len() ==> lex_leq(b@[m].skey(), b@[n].skey()),
            out@.len() == i + j,
            out@.to_multiset() == (a@.take(i as int) + b@.take(j as int)).to_multiset(),
            forall|m: int| 0 <= m < out@.len() ==> (#[trigger] out@[m]).wf(),
            forall|m: int, n: int|
                0 <= m < n < out@.len() ==> lex_leq(out@[m].skey(), out@[n].skey()),
            forall|m: int, n: int|
                0 <= m < out@.len() && i <= n < a@.len() ==> lex_leq(
                    out@[m].skey(),
                    a@[n].skey(),
                ),
            forall|m: int, n: int|
                0 <= m < out@.len() && j <= n < b@.len() ==> lex_leq(
                    out@[m].skey(),
                    b@[n].skey(),
                ),
        decreases a@.len() - i + b@.len() - j,
    {
        let take_a: bool;
        if i < a.len() {
            if j < b.len() {
                take_a = a[i].key_le(&b[j]);
            } else {
                take_a = true;
            }
        } else {
            take_a = false;
        }
        if take_a {
            let l = a[i].clone();
            proof {
                if j < b@.len() {
                    // a[i] goes first and stays below the rest of b
                    assert forall|n: int| j <= n < b@.len() implies lex_leq(
                        a@[i as int].skey(),
                        b@[n].skey(),
                    ) by {
                        if n > j {
                            lemma_lex_trans(a@[i as int].skey(), b@[j as int].skey(), b@[n].skey());
                        }
                    }
                }
                vstd::seq_lib::lemma_multiset_commutative(a@.take(i as int), b@.take(j as int));
                vstd::seq_lib::lemma_multiset_commutative(a@.take(i + 1), b@.take(j as int));
                assert(a@.take(i + 1) =~= a@.take(i as int).push(a@[i as int]));
                assert((a@.take(i + 1) + b@.take(j as int)).to_multiset() =~= out@.push(
                    a@[i as int],
                ).to_multiset());
            }
            out.push(l);
            i = i + 1;
        } else {
            proof {
                assert(j < b@.len());
                if i < a@.len() {
                    lemma_lex_total(a@[i as int].skey(), b@[j as int].skey());
                    assert(lex_leq(b@[j as int].skey(), a@[i as int].skey()));
                    assert forall|n: int| i <= n < a@.len() implies lex_leq(
                        b@[j as int].skey(),
                        a@[n].skey(),
                    ) by {
                        if n > i {
                            lemma_lex_trans(b@[j as int].skey(), a@[i as int].skey(), a@[n].skey());
                        }
                    }
                }
            }
            let l = b[j].clone();
            proof {
                vstd::seq_lib::lemma_multiset_commutative(a@.take(i as int), b@.take(j as int));
                vstd::seq_lib::lemma_multiset_commutative(a@.take(i as int), b@.take(j + 1));
                assert(b@.take(j + 1) =~= b@.take(j as int).push(b@[j as int]));
                assert((a@.take(i as int) + b@.take(j + 1)).to_multiset() =~= out@.push(
                    b@[j as int],
                ).to_multiset());
            }
            out.push(l);
            j = j + 1;
        }
    }
    proof {
        assert(a@.take(a@.len() as int) =~= a@);
        assert(b@.take(b@.len() as int) =~= b@);
    }
    out
}

/// One line of a chunk, named by its position; orders like the line itself.
pub struct ChunkLine {
    pub chunk: Chunk,
    pub line_index: usize,
    pub iterator_index: usize,
}

impl ChunkLine {
    pub fn new(chunk: Chunk, line_index: usize, iterator_index: usize) -> (r: Self)
        ensures
            r.chunk == chunk,
            r.line_index == line_index,
            r.iterator_index == iterator_index,
    {
        ChunkLine { chunk, line_index, iterator_index }
    }

    /// Appends the named line and one newline byte to `out`.
    pub fn write(&self, out: &mut Vec<u8>)
        requires
            self.line_index < self.chunk.all_lines().len(),
        ensures
            final(out)@ == old(out)@ + self.chunk.all_lines()[self.line_index as int].sbytes()
                + seq![10u8],
    {
        self.chunk.line(self.line_index).write(out);
    }
}


/// A lazy sequence of chunks drawn from a byte source, carrying the bytes of
/// a partial trailing line from one read to the next.
pub struct Chunks<R: ByteSource> {
    input: R,
    carry_over: Vec<u8>,
    buffer_size: usize,
    config: Configuration,
}

impl<R: ByteSource> Chunks<R> {
    /// The carried bytes always fit the buffer and hold no newline.
    pub closed spec fn chunks_wf(&self) -> bool {
        &&& 1 <= self.buffer_size
        &&& self.carry_over@.len() < self.buffer_size
        &&& no_newline(self.carry_over@)
    }

    /// The bytes not yet parsed into chunks.
    pub closed spec fn pending_bytes(&self) -> Seq<u8> {
        self.carry_over@ + self.input.remaining()
    }

    /// The configuration the stream parses under.
    pub closed spec fn spec_config(&self) -> Configuration {
        self.config
    }

    /// The per-read buffer size.
    pub closed spec fn spec_buffer_size(&self) -> usize {
        self.buffer_size
    }

    /// A chunk stream over the source, with an empty carry.
    pub fn new(input: R, buffer_size: usize, config: Configuration) -> (r: Self)
        requires
            1 <= buffer_size,
        ensures
            r.chunks_wf(),
            r.pending_bytes() == input.remaining(),
            r.spec_config() == config,
            r.spec_buffer_size() == buffer_size,
    {
        let r = Chunks { input, carry_over: Vec::new(), buffer_size, config };
        proof {
            assert(r.pending_bytes() =~= r.input.remaining());
        }
        r
    }

    /// Reads and parses the next chunk.  Yields nothing once the pending
    /// bytes are exhausted, and reports a line too large to fit one read
    /// buffer exactly when a full buffer holds no newline.
    #[verifier::rlimit(50)]
    pub fn next(&mut self) -> (r: Result<Option<Chunk>, SortError>)
        requires
            old(self).chunks_wf(),
        ensures
            final(self).chunks_wf(),
            final(self).spec_config() == old(self).spec_config(),
            final(self).spec_buffer_size() == old(self).spec_buffer_size(),
            match r {
                Ok(Some(chunk)) => {
                    &&& chunk.cursor() == 0
                    &&& chunk.all_lines().len() >= 1
                    &&& chunk.keyed_by(
                        old(self).spec_config().delimiter,
                        old(self).spec_config().field as nat,
                    )
                    &&& forall|i: int|
                        0 <= i < chunk.bytes_seq().len() ==> (#[trigger] chunk.bytes_seq()[i]).len()
                            < old(self).spec_buffer_size()
                    &&& lines_of(old(self).pending_bytes()) == chunk.bytes_seq() + lines_of(
                        final(self).pending_bytes(),
                    )
                    &&& final(self).pending_bytes().len() < old(self).pending_bytes().len()
                    &&& old(self).pending_bytes().len() - final(self).pending_bytes().len()
                        <= old(self).spec_buffer_size()
                    &&& !(old(self).pending_bytes().len() >= old(self).spec_buffer_size()
                        && no_newline(
                        old(self).pending_bytes().take(old(self).spec_buffer_size() as int),
                    ))
                },
                Ok(None) => old(self).pending_bytes().len() == 0 && final(self).pending_bytes()
                    == old(self).pending_bytes(),
                Err(e) => {
                    &&& e == (SortError::LineTooLarge {
                        buffer_size: old(self).spec_buffer_size(),
                    })
                    &&& old(self).pending_bytes().len() >= old(self).spec_buffer_size()
                    &&& no_newline(
                        old(self).pending_bytes().take(old(self).spec_buffer_size() as int),
                    )
                    &&& lines_of(old(self).pending_bytes()).len() > 0
                    &&& lines_of(old(self).pending_bytes())[0].len() >= old(
                        self,
                    ).spec_buffer_size()
                },
            },
    {
        let ghost pend0 = self.pending_bytes();
        let ghost carry0 = self.carry_over@;
        let ghost rem0 = self.input.remaining();
        let want = self.buffer_size - self.carry_over.len();
        let mut data = self.input.read_upto(want);
        let ghost datav = data@;
        let eof = data.len() < want;
        let mut buffer: Vec<u8> = Vec::new();
        std::mem::swap(&mut buffer, &mut self.carry_over);
        buffer.append(&mut data);
        proof {
            assert(buffer@ == carry0 + datav);
            assert(pend0 =~= buffer@ + self.input.remaining());
        }
        if buffer.len() == 0 {
            proof {
                assert(pend0.len() == 0);
                assert(final(self).pending_bytes() =~= pend0);
            }
            return Ok(None);
        }
        let ghost bufv = buffer@;
        let limit: usize;
        if !eof {
            match find_last_byte(10u8, buffer.as_slice()) {
                Some(nl) => {
                    limit = nl + 1;
                },
                None => {
                    proof {
                        assert(self.input.remaining() =~= rem0.skip(want as int));
                        assert(bufv =~= pend0.take(self.buffer_size as int));
                        assert(no_newline(pend0.take(self.buffer_size as int)));
                        assert(pend0.len() >= self.buffer_size);
                        crate::model::lemma_head_line_blocks(pend0, self.buffer_size as int);
                    }
                    return Err(SortError::LineTooLarge { buffer_size: self.buffer_size });
                },
            }
            // carry the bytes after the last newline into the next read
            let ghost self_snap = *self;
            let mut i = limit;
            while i < buffer.len()
                invariant
                    1 <= limit <= i <= buffer@.len(),
                    buffer@ == bufv,
                    bufv.len() == self_snap.buffer_size,
                    1 <= self_snap.buffer_size,
                    forall|j: int| limit <= j < bufv.len() ==> bufv[j] != 10u8,
                    self.carry_over@ == bufv.subrange(limit as int, i as int),
                    no_newline(self.carry_over@),
                    self.input == self_snap.input,
                    self.buffer_size == self_snap.buffer_size,
                    self.config == self_snap.config,
                decreases buffer@.len() - i,
            {
                let b = buffer[i];
                self.carry_over.push(b);
                i = i + 1;
                proof {
                    assert(self.carry_over@ =~= bufv.subrange(limit as int, i as int));
                }
            }
        } else {
            limit = buffer.len();
        }
        let ghost carry1 = self.carry_over@;
        let ghost d = self.config.delimiter;
        let ghost f = self.config.field;
        let delimiter = self.config.delimiter;
        let field = self.config.field;
        let buffer_rc = Rc::new(buffer);
        let mut lines: Vec<Line> = Vec::new();
        let mut start: usize = 0;
        proof {
            assert(lines@.map_values(|l: Line| l.sbytes()) =~= Seq::<Seq<u8>>::empty());
            assert(bufv.subrange(0, limit as int) =~= bufv.take(limit as int));
        }
        while start < limit
            invariant
                start <= limit <= buffer_rc@.len(),
                buffer_rc@ == bufv,
                delimiter == d,
                field == f,
                eof ==> limit == bufv.len() && bufv.len() < old(self).spec_buffer_size(),
                !eof ==> bufv.len() == old(self).spec_buffer_size() && 1 <= limit && bufv[limit
                    - 1] == 10u8,
                forall|i: int| 0 <= i < lines@.len() ==> (#[trigger] lines@[i]).wf(),
                forall|i: int| 0 <= i < lines@.len() ==> (#[trigger] lines@[i]).keyed(d, f as nat),
                forall|i: int|
                    0 <= i < lines@.len() ==> (#[trigger] lines@[i]).sbytes().len() < old(
                        self,
                    ).spec_buffer_size(),
                lines@.map_values(|l: Line| l.sbytes()) + lines_of(
                    bufv.subrange(start as int, limit as int),
                ) == lines_of(bufv.take(limit as int)),
            decreases limit - start,
        {
            let ghost seg = bufv.subrange(start as int, start as int);
            let bufref: &Vec<u8> = &*buffer_rc;
            let sl = vstd::slice::slice_subrange(bufref.as_slice(), start, limit);
            let found = find_first_byte(10u8, sl);
            proof {
                assert(sl@.len() == limit - start);
            }
            let end: usize = segment_end(found, start, limit);
            let ghost segv = bufv.subrange(start as int, end as int);
            proof {
                assert(no_newline(segv));
            }
            let key = find_key_range(bufref, start, end, delimiter, field);
            let line = Line::from_parts(
                crate::line::clone_buffer(&buffer_rc),
                start,
                end,
                key.0,
                key.1,
            );
            proof {
                assert(line.sbytes() == segv);
                assert(line.keyed(d, f as nat));
                // a parsed line always leaves room for its newline or the
                // buffer's unread remainder
                if eof {
                    assert(segv.len() < old(self).spec_buffer_size());
                } else {
                    if end == limit {
                        assert(found is None);
                        assert(sl@[limit - 1 - start] == bufv[limit - 1]);
                        assert(false);
                    }
                    assert(segv.len() < old(self).spec_buffer_size());
                }
                assert(lines@.push(line).map_values(|l: Line| l.sbytes()) =~= lines@.map_values(
                    |l: Line| l.sbytes(),
                ).push(segv));
                if end < limit {
                    assert(bufv[end as int] == 10u8);
                    assert(bufv.subrange(start as int, limit as int) =~= segv + seq![10u8]
                        + bufv.subrange(end + 1, limit as int));
                    lemma_lines_of_prefix(segv, bufv.subrange(end + 1, limit as int));
                } else {
                    assert(segv.len() > 0);
                    lemma_lines_of_unterminated(segv);
                    assert(bufv.subrange(limit as int, limit as int) =~= Seq::<u8>::empty());
                    assert(lines_of(Seq::<u8>::empty()) == Seq::<Seq<u8>>::empty());
                    assert(lines_of(bufv.subrange(start as int, limit as int)) == seq![segv]
                        + lines_of(bufv.subrange(limit as int, limit as int)));
                }
            }
            lines.push(line);
            start = next_segment_start(end, limit);
        }
        proof {
            assert(bufv.subrange(limit as int, limit as int) =~= Seq::<u8>::empty());
            assert(lines_of(Seq::<u8>::empty()) == Seq::<Seq<u8>>::empty());
            assert(lines@.map_values(|l: Line| l.sbytes()) + Seq::<Seq<u8>>::empty()
                =~= lines@.map_values(|l: Line| l.sbytes()));
        }
        let chunk = Chunk::from_lines(lines);
        proof {
            assert(chunk.bytes_seq() == lines_of(bufv.take(limit as int)));
            assert(chunk.bytes_seq().len() >= 1) by {
                crate::model::lemma_lines_of_nonempty(bufv.take(limit as int));
            }
            let pend1 = final(self).pending_bytes();
            if eof {
                assert(datav == rem0);
                assert(self.input.remaining() =~= Seq::<u8>::empty());
                assert(carry1 =~= Seq::<u8>::empty());
                assert(pend1 =~= Seq::<u8>::empty());
                assert(limit == bufv.len());
                assert(bufv.take(limit as int) =~= bufv);
                assert(pend0 =~= bufv);
                assert(lines_of(pend1) == Seq::<Seq<u8>>::empty());
                assert(chunk.bytes_seq() + lines_of(pend1) =~= chunk.bytes_seq());
                assert(pend0.len() >= 1);
                assert(pend0.len() < old(self).spec_buffer_size() || !no_newline(
                    pend0.take(old(self).spec_buffer_size() as int),
                )) by {
                    if pend0.len() >= old(self).spec_buffer_size() {
                        assert(bufv.len() == carry0.len() + datav.len());
                        assert(datav.len() < want);
                        assert(pend0.len() == bufv.len());
                        assert(false);
                    }
                }
            } else {
                assert(datav.len() == want);
                assert(self.input.remaining() == rem0.skip(want as int));
                assert(bufv.len() == old(self).spec_buffer_size());
                assert(bufv[limit - 1] == 10u8);
                assert(bufv.take(limit as int).len() >= 1);
                assert(bufv.take(limit as int)[limit - 1] == 10u8);
                crate::model::lemma_lines_of_terminated(
                    bufv.take(limit as int),
                    carry1 + self.input.remaining(),
                );
                assert(pend0 =~= bufv.take(limit as int) + (carry1 + self.input.remaining()));
                assert(pend1 =~= carry1 + self.input.remaining());
                assert(lines_of(pend0) == lines_of(bufv.take(limit as int)) + lines_of(pend1));
                assert(pend1.len() < pend0.len());
                assert(!no_newline(pend0.take(old(self).spec_buffer_size() as int))) by {
                    assert(pend0.take(old(self).spec_buffer_size() as int) =~= bufv);
                    assert(bufv[limit - 1] == 10u8);
                }
            }
        }
        Ok(Some(chunk))
    }
}

} // verus!


