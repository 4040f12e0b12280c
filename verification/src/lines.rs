//! Flattens a chunk stream into a lazy sequence of line views, keeping the
//! current chunk alive while its lines are handed out.

use vstd::prelude::*;

use crate::chunk::{Chunk, Chunks};
use crate::config::Configuration;
use crate::error::SortError;
use crate::line::Line;
use crate::model::lines_of;
use crate::source::ByteSource;

verus! {

/// A lazy sequence of line views over a byte source.
pub struct Lines<R: ByteSource> {
    chunks: Chunks<R>,
    chunk: Option<Chunk>,
}

impl<R: ByteSource> Lines<R> {
    /// The stream's carry is intact and the current chunk, if any, is keyed
    /// under the stream's configuration.
    pub closed spec fn wf(&self) -> bool {
        &&& self.chunks.chunks_wf()
        &&& match self.chunk {
            Some(c) => c.keyed_by(
                self.chunks.spec_config().delimiter,
                self.chunks.spec_config().field as nat,
            ) && forall|i: int|
                0 <= i < c.bytes_seq().len() ==> (#[trigger] c.bytes_seq()[i]).len()
                    < self.chunks.spec_buffer_size(),
            None => true,
        }
    }

    /// The byte strings of the lines not yet yielded.
    pub closed spec fn pending_lines(&self) -> Seq<Seq<u8>> {
        (match self.chunk {
            Some(c) => c.pending_bytes_seq(),
            None => Seq::empty(),
        }) + lines_of(self.chunks.pending_bytes())
    }

    /// The configuration the stream parses under.
    pub closed spec fn spec_config(&self) -> Configuration {
        self.chunks.spec_config()
    }

    /// The per-read buffer size.
    pub closed spec fn spec_buffer_size(&self) -> usize {
        self.chunks.spec_buffer_size()
    }

    /// A line stream over the source.
    pub fn new(input: R, buffer_size: usize, config: Configuration) -> (r: Self)
        requires
            1 <= buffer_size,
        ensures
            r.wf(),
            r.pending_lines() == lines_of(input.remaining()),
            r.spec_config() == config,
            r.spec_buffer_size() == buffer_size,
    {
        let r = Lines { chunks: Chunks::new(input, buffer_size, config), chunk: None };
        proof {
            assert(r.pending_lines() =~= lines_of(r.chunks.pending_bytes()));
        }
        r
    }

    /// Yields the next line view, drawing a fresh chunk when the current one
    /// is exhausted.  Reports a line too large to fit one read buffer.
    pub fn next(&mut self) -> (r: Result<Option<Line>, SortError>)
        requires
            old(self).wf(),
        ensures
            final(self).wf(),
            final(self).spec_config() == old(self).spec_config(),
            final(self).spec_buffer_size() == old(self).spec_buffer_size(),
            match r {
                Ok(Some(l)) => {
                    &&& old(self).pending_lines().len() > 0
                    &&& l.sbytes() == old(self).pending_lines()[0]
                    &&& l.sbytes().len() < old(self).spec_buffer_size()
                    &&& l.keyed(
                        old(self).spec_config().delimiter,
                        old(self).spec_config().field as nat,
                    )
                    &&& final(self).pending_lines() == old(self).pending_lines().drop_first()
                },
                Ok(None) => old(self).pending_lines().len() == 0 && final(self).pending_lines()
                    == old(self).pending_lines(),
                Err(e) => {
                    &&& e == (SortError::LineTooLarge {
                        buffer_size: old(self).spec_buffer_size(),
                    })
                    &&& old(self).pending_lines().len() > 0
                    &&& old(self).pending_lines()[0].len() >= old(self).spec_buffer_size()
                },
            },
    {
        let ghost pend0 = self.pending_lines();
        let mut cur: Option<Chunk> = None;
        std::mem::swap(&mut self.chunk, &mut cur);
        match cur {
            Some(mut c) => {
                let ghost c0 = c;
                let ghost cpend = c.pending_bytes_seq();
                let ghost call = c.all_lines();
                let ghost gcur = c.cursor();
                let l = c.next();
                match l {
                    Some(line) => {
                        proof {
                            assert(c.pending_bytes_seq() =~= cpend.drop_first());
                            assert(line.sbytes() == cpend[0]);
                            assert(pend0[0] == cpend[0]);
                            assert(0 <= gcur < call.len());
                            assert(line == call[gcur]);
                            assert(old(self).chunk == Some(c0));
                            assert(c0.bytes_seq()[gcur] == line.sbytes());
                            assert(c0.bytes_seq()[gcur].len() < old(self).spec_buffer_size());
                            assert(c.all_lines() == c0.all_lines());
                            assert(c.bytes_seq() == c0.bytes_seq());
                            assert(call[gcur].keyed(
                                old(self).spec_config().delimiter,
                                old(self).spec_config().field as nat,
                            ));
                        }
                        self.chunk = Some(c);
                        proof {
                            assert(final(self).pending_lines() =~= pend0.drop_first());
                        }
                        return Ok(Some(line));
                    },
                    None => {
                        proof {
                            assert(cpend =~= Seq::<Seq<u8>>::empty());
                            assert(pend0 =~= lines_of(self.chunks.pending_bytes()));
                        }
                    },
                }
            },
            None => {
                proof {
                    assert(pend0 =~= lines_of(self.chunks.pending_bytes()));
                }
            },
        }
        // the current chunk is spent; draw the next one
        let ghost chunks_pend0 = self.chunks.pending_bytes();
        match self.chunks.next() {
            Ok(Some(mut c2)) => {
                let ghost cb = c2.bytes_seq();
                proof {
                    assert(lines_of(chunks_pend0) == cb + lines_of(self.chunks.pending_bytes()));
                    assert(c2.pending() =~= c2.all_lines());
                    assert(c2.pending_bytes_seq() =~= cb);
                }
                let ghost cb2l = c2.pending();
                let l = c2.next();
                match l {
                    Some(line) => {
                        proof {
                            assert(line.sbytes() == cb[0]);
                            assert(c2.pending_bytes_seq() =~= cb.drop_first());
                            assert(cb2l[0] == c2.all_lines()[0]);
                            assert(line == c2.all_lines()[0]);
                            assert(cb[0] == line.sbytes());
                            assert(line.sbytes().len() < old(self).spec_buffer_size());
                            assert(c2.all_lines()[0].keyed(
                                old(self).spec_config().delimiter,
                                old(self).spec_config().field as nat,
                            ));
                        }
                        self.chunk = Some(c2);
                        proof {
                            assert(pend0[0] == cb[0]);
                            assert(final(self).pending_lines() =~= pend0.drop_first());
                        }
                        Ok(Some(line))
                    },
                    None => {
                        proof {
                            assert(c2.pending().len() == c2.all_lines().len());
                            assert(false);
                        }
                        Ok(None)
                    },
                }
            },
            Ok(None) => {
                proof {
                    assert(lines_of(chunks_pend0) =~= Seq::<Seq<u8>>::empty()) by {
                        assert(chunks_pend0.len() == 0);
                        assert(chunks_pend0 =~= Seq::<u8>::empty());
                    }
                    assert(pend0.len() == 0);
                    assert(final(self).pending_lines() =~= pend0);
                }
                Ok(None)
            },
            Err(e) => {
                proof {
                    assert(pend0 =~= lines_of(chunks_pend0));
                }
                Err(e)
            },
        }
    }
}

} // verus!
