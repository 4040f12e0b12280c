//! A cheap, comparable view of one line inside a shared byte buffer.

use vstd::prelude::*;

use std::rc::Rc;

use crate::model::{no_newline, lex_leq, key_of};

verus! {

/// A view of one line inside a shared byte buffer: the bytes from `start`
/// up to but not including `end`, with the sub-range `[key_start, key_end)`
/// used as the sort key.  Cloning copies the offsets and shares the buffer.
#[derive(Debug)]
pub struct Line {
    buffer: Rc<Vec<u8>>,
    start: usize,
    end: usize,
    key_start: usize,
    key_end: usize,
}

impl Line {
    /// The bytes of the line, newline excluded.
    pub closed spec fn sbytes(&self) -> Seq<u8> {
        self.buffer@.subrange(self.start as int, self.end as int)
    }

    /// The bytes of the sort key.
    pub closed spec fn skey(&self) -> Seq<u8> {
        self.buffer@.subrange(self.key_start as int, self.key_end as int)
    }

    /// Well-formed: ranges in bounds, key inside the line, no newline byte
    /// among the line's bytes.  Holds of every `Line` value by construction.
    #[verifier::type_invariant]
    pub closed spec fn wf(&self) -> bool {
        &&& self.start <= self.end <= self.buffer@.len()
        &&& self.start <= self.key_start <= self.key_end <= self.end
        &&& no_newline(self.sbytes())
    }

    /// The stored key is the delimiter-selected key of the line's bytes.
    pub open spec fn keyed(&self, d: u8, f: nat) -> bool {
        self.skey() == key_of(self.sbytes(), d, f)
    }

    /// A well-formed line holds no newline byte, and its key is a sub-range
    /// of its bytes.
    pub proof fn lemma_wf_facts(&self)
        requires
            self.wf(),
        ensures
            no_newline(self.sbytes()),
            self.skey().len() <= self.sbytes().len(),
    {
    }

    /// The line `buffer[start ..= end]`, keyed by its whole bytes.
    pub fn new(buffer: Rc<Vec<u8>>, start: usize, end: usize) -> (r: Line)
        requires
            start <= end < buffer@.len(),
            forall|i: int| start <= i <= end ==> buffer@[i] != 10u8,
        ensures
            r.wf(),
            r.sbytes() == buffer@.subrange(start as int, end as int + 1),
            r.skey() == r.sbytes(),
    {
        let n = buffer.len();
        assert(end < n);
        let r = Line { buffer, start, end: end + 1, key_start: start, key_end: end + 1 };
        proof {
            assert(no_newline(r.sbytes()));
        }
        r
    }

    /// The line `buffer[start ..= end]`, keyed by `buffer[field.0 ..= field.1]`.
    pub fn new_with_field(buffer: Rc<Vec<u8>>, start: usize, end: usize, field: (usize, usize)) -> (r: Line)
        requires
            start <= end < buffer@.len(),
            start <= field.0 <= field.1 <= end,
            forall|i: int| start <= i <= end ==> buffer@[i] != 10u8,
        ensures
            r.wf(),
            r.sbytes() == buffer@.subrange(start as int, end as int + 1),
            r.skey() == buffer@.subrange(field.0 as int, field.1 as int + 1),
    {
        let n = buffer.len();
        assert(end < n);
        let r = Line { buffer, start, end: end + 1, key_start: field.0, key_end: field.1 + 1 };
        proof {
            assert(no_newline(r.sbytes()));
        }
        r
    }

    /// The line `buffer[start .. end]` keyed by `buffer[key_start .. key_end]`,
    /// with exclusive upper bounds; both ranges may be empty.
    pub(crate) fn from_parts(
        buffer: Rc<Vec<u8>>,
        start: usize,
        end: usize,
        key_start: usize,
        key_end: usize,
    ) -> (r: Line)
        requires
            start <= end <= buffer@.len(),
            start <= key_start <= key_end <= end,
            no_newline(buffer@.subrange(start as int, end as int)),
        ensures
            r.wf(),
            r.sbytes() == buffer@.subrange(start as int, end as int),
            r.skey() == buffer@.subrange(key_start as int, key_end as int),
    {
        Line { buffer, start, end, key_start, key_end }
    }

    /// Appends the line's bytes and one newline byte to `out`.
    pub fn write(&self, out: &mut Vec<u8>)
        ensures
            final(out)@ == old(out)@ + self.sbytes() + seq![10u8],
    {
        proof {
            use_type_invariant(self);
        }
        let ghost prefix = out@;
        let mut i = self.start;
        while i < self.end
            invariant
                self.wf(),
                self.start <= i <= self.end,
                out@ == prefix + self.buffer@.subrange(self.start as int, i as int),
            decreases self.end - i,
        {
            let b = self.buffer[i];
            out.push(b);
            i = i + 1;
            proof {
                assert(prefix + self.buffer@.subrange(self.start as int, i as int) =~= (prefix
                    + self.buffer@.subrange(self.start as int, i - 1)).push(self.buffer@[i - 1]));
            }
        }
        out.push(10u8);
        proof {
            assert(final(out)@ =~= old(out)@ + self.sbytes() + seq![10u8]);
        }
    }

    /// The bytes of the line, newline excluded.
    pub fn as_bytes(&self) -> (r: &[u8])
        ensures
            r@ == self.sbytes(),
    {
        proof {
            use_type_invariant(self);
        }
        vstd::slice::slice_subrange(self.buffer.as_slice(), self.start, self.end)
    }

    /// The bytes the line is ordered by.
    pub fn as_sort_bytes(&self) -> (r: &[u8])
        ensures
            r@ == self.skey(),
    {
        proof {
            use_type_invariant(self);
        }
        vstd::slice::slice_subrange(self.buffer.as_slice(), self.key_start, self.key_end)
    }

    /// Lexicographic comparison of the two sort keys.
    pub fn key_le(&self, other: &Line) -> (r: bool)
        ensures
            r == lex_leq(self.skey(), other.skey()),
    {
        proof {
            use_type_invariant(self);
            use_type_invariant(other);
        }
        let la = self.key_end - self.key_start;
        let lb = other.key_end - other.key_start;
        let mut i: usize = 0;
        proof {
            assert(self.skey().skip(0) =~= self.skey());
            assert(other.skey().skip(0) =~= other.skey());
        }
        loop
            invariant
                self.wf(),
                other.wf(),
                la == self.skey().len(),
                lb == other.skey().len(),
                i <= la,
                i <= lb,
                lex_leq(self.skey(), other.skey()) == lex_leq(
                    self.skey().skip(i as int),
                    other.skey().skip(i as int),
                ),
            decreases la - i,
        {
            if i == la {
                proof {
                    assert(self.skey().skip(i as int).len() == 0);
                }
                return true;
            }
            if i == lb {
                proof {
                    assert(other.skey().skip(i as int).len() == 0);
                    assert(self.skey().skip(i as int).len() > 0);
                }
                return false;
            }
            let a = self.buffer[self.key_start + i];
            let b = other.buffer[other.key_start + i];
            proof {
                assert(self.skey().skip(i as int)[0] == a);
                assert(other.skey().skip(i as int)[0] == b);
            }
            if a < b {
                return true;
            }
            if a > b {
                return false;
            }
            proof {
                assert(self.skey().skip(i as int).drop_first() =~= self.skey().skip(i + 1));
                assert(other.skey().skip(i as int).drop_first() =~= other.skey().skip(i + 1));
            }
            i = i + 1;
        }
    }

    /// Byte equality of the two sort keys.
    pub fn key_eq(&self, other: &Line) -> (r: bool)
        ensures
            r == (self.skey() == other.skey()),
    {
        let ab = self.key_le(other);
        let ba = other.key_le(self);
        proof {
            if ab && ba {
                crate::model::lemma_lex_antisym(self.skey(), other.skey());
            }
            if self.skey() == other.skey() {
                crate::model::lemma_lex_refl(self.skey());
            }
        }
        ab && ba
    }
}

impl Clone for Line {
    /// The clone shares the buffer and copies the offsets.
    fn clone(&self) -> (r: Self)
        ensures
            r == *self,
    {
        proof {
            use_type_invariant(self);
        }
        Line {
            buffer: clone_buffer(&self.buffer),
            start: self.start,
            end: self.end,
            key_start: self.key_start,
            key_end: self.key_end,
        }
    }
}

/// Relies on Rc::clone: the clone is a new handle to the same allocation.
#[verifier::external_body]
pub(crate) fn clone_buffer(buf: &Rc<Vec<u8>>) -> (r: Rc<Vec<u8>>)
    ensures
        r == *buf,
{
    Rc::clone(buf)
}

impl PartialEq for Line {
    /// Two lines are equal when their sort keys are byte-equal.
    fn eq(&self, other: &Self) -> (r: bool) {
        self.key_eq(other)
    }
}

impl Eq for Line {

}

impl vstd::std_specs::cmp::PartialEqSpecImpl for Line {
    open spec fn obeys_eq_spec() -> bool {
        true
    }

    open spec fn eq_spec(&self, other: &Self) -> bool {
        self.skey() == other.skey()
    }
}

impl PartialOrd for Line {
    /// Lines order by the reverse of the lexicographic order of their sort
    /// keys, so that a max-first heap of lines yields the least key first.
    fn partial_cmp(&self, other: &Self) -> (r: Option<std::cmp::Ordering>) {
        let sle = self.key_le(other);
        let ole = other.key_le(self);
        proof {
            if sle && ole {
                crate::model::lemma_lex_antisym(self.skey(), other.skey());
            }
            if self.skey() == other.skey() {
                crate::model::lemma_lex_refl(self.skey());
            }
            crate::model::lemma_lex_total(self.skey(), other.skey());
        }
        if sle && ole {
            Some(std::cmp::Ordering::Equal)
        } else if ole {
            Some(std::cmp::Ordering::Less)
        } else {
            Some(std::cmp::Ordering::Greater)
        }
    }
}

impl vstd::std_specs::cmp::PartialOrdSpecImpl for Line {
    open spec fn obeys_partial_cmp_spec() -> bool {
        true
    }

    open spec fn partial_cmp_spec(&self, other: &Self) -> Option<std::cmp::Ordering> {
        if self.skey() == other.skey() {
            Some(std::cmp::Ordering::Equal)
        } else if lex_leq(other.skey(), self.skey()) {
            Some(std::cmp::Ordering::Less)
        } else {
            Some(std::cmp::Ordering::Greater)
        }
    }
}

} // verus!
