//! The byte source that the chunked reader draws from.

use vstd::prelude::*;

verus! {

/// A sequential source of bytes.  `read_upto` hands out the next bytes of
/// `remaining`, as many as asked for while the source lasts.
pub trait ByteSource: Sized {
    /// The bytes the source has not yet handed out.
    spec fn remaining(&self) -> Seq<u8>;

    fn read_upto(&mut self, max: usize) -> (r: Vec<u8>)
        ensures
            r@.len() == if max as int <= old(self).remaining().len() {
                max as int
            } else {
                old(self).remaining().len() as int
            },
            r@ == old(self).remaining().take(r@.len() as int),
            final(self).remaining() == old(self).remaining().skip(r@.len() as int),
    ;
}

/// An in-memory byte source: a vector and a read position.
pub struct ByteCursor {
    data: Vec<u8>,
    pos: usize,
}

impl ByteCursor {
    /// A source over the whole vector.
    pub fn new(data: Vec<u8>) -> (r: Self)
        ensures
            r.remaining() == data@,
    {
        let r = ByteCursor { data, pos: 0 };
        proof {
            assert(r.data@.skip(0) =~= r.data@);
        }
        r
    }
}

impl ByteSource for ByteCursor {
    closed spec fn remaining(&self) -> Seq<u8> {
        self.data@.skip(self.pos as int)
    }

    fn read_upto(&mut self, max: usize) -> (r: Vec<u8>)
    {
        proof {
            use_type_invariant(&*self);
        }
        let avail = self.data.len() - self.pos;
        let n = if max <= avail {
            max
        } else {
            avail
        };
        let mut r: Vec<u8> = Vec::new();
        let mut i: usize = 0;
        while i < n
            invariant
                self.wf(),
                self.pos + n <= self.data@.len(),
                self.pos + n <= usize::MAX,
                i <= n,
                r@ == self.data@.subrange(self.pos as int, self.pos + i),
            decreases n - i,
        {
            let b = self.data[self.pos + i];
            r.push(b);
            i = i + 1;
            proof {
                assert(self.data@.subrange(self.pos as int, self.pos + i) =~= self.data@.subrange(
                    self.pos as int,
                    self.pos + i - 1,
                ).push(self.data@[self.pos + i - 1]));
            }
        }
        let ghost old_rem = self.remaining();
        self.pos = self.pos + n;
        proof {
            assert(r@ =~= old_rem.take(n as int));
            assert(self.data@.skip(self.pos as int) =~= old_rem.skip(n as int));
        }
        r
    }
}

impl ByteCursor {
    /// The read position never passes the end of the data.
    #[verifier::type_invariant]
    spec fn wf(&self) -> bool {
        self.pos <= self.data@.len()
    }
}


} // verus!

