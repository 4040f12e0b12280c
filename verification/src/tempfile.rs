//! Run storage: a typed lifecycle (writing, closed, reading, removed) over
//! the spill space of one sort run, and the directory that vends fresh runs.

use vstd::prelude::*;

use crate::source::ByteSource;

verus! {

/// An open run with its contents addressable.
pub trait TmpFileOpened: Sized {
    type Closed: TmpFileClosed;

    /// The bytes of the run.
    spec fn contents(&self) -> Seq<u8>;

    /// Closing keeps the contents; the closed form may cross workers.
    fn close(self) -> (r: Self::Closed)
        ensures
            r.contents() == self.contents(),
    ;
}

/// A closed run: contents fixed, reopenable for reading.
pub trait TmpFileClosed: Sized {
    type Reopened: TmpFileRead;

    /// The bytes of the run.
    spec fn contents(&self) -> Seq<u8>;

    /// Reopens the run for sequential reading from the start.
    fn reopen(self) -> (r: Self::Reopened)
        ensures
            r.contents() == self.contents(),
            r.read_from() == 0,
    ;
}

/// An open run that accepts appended bytes.
pub trait TmpFileWrite: TmpFileOpened {
    /// Appends the given bytes to the run.
    fn write_all_bytes(&mut self, buf: &[u8])
        ensures
            final(self).contents() == old(self).contents() + buf@,
    ;
}

/// An open run being read; reading consumes it, and it can be removed.
pub trait TmpFileRead: Sized {
    /// The bytes of the run.
    spec fn contents(&self) -> Seq<u8>;

    /// How many bytes have been read so far.
    spec fn read_from(&self) -> int;

    /// Removes the run's storage.
    fn close_and_remove(self);
}

/// A run being written: its bytes so far.
pub struct TmpFileWriter {
    bytes: Vec<u8>,
}

/// A finished run: its bytes, fixed.
pub struct ClosedTmpFile {
    bytes: Vec<u8>,
}

/// A run being read back: its bytes and the read position.
pub struct TmpFileReader {
    bytes: Vec<u8>,
    pos: usize,
}

impl TmpFileOpened for TmpFileWriter {
    type Closed = ClosedTmpFile;

    closed spec fn contents(&self) -> Seq<u8> {
        self.bytes@
    }

    fn close(self) -> (r: Self::Closed) {
        ClosedTmpFile { bytes: self.bytes }
    }
}

impl TmpFileWrite for TmpFileWriter {
    fn write_all_bytes(&mut self, buf: &[u8]) {
        let mut i: usize = 0;
        while i < buf.len()
            invariant
                i <= buf@.len(),
                self.bytes@ == old(self).bytes@ + buf@.take(i as int),
            decreases buf@.len() - i,
        {
            let b = buf[i];
            self.bytes.push(b);
            i = i + 1;
            proof {
                assert(old(self).bytes@ + buf@.take(i as int) =~= (old(self).bytes@ + buf@.take(
                    i - 1,
                )).push(buf@[i - 1]));
            }
        }
        proof {
            assert(buf@.take(buf@.len() as int) =~= buf@);
        }
    }
}

impl ClosedTmpFile {
    /// The bytes of the run.
    pub closed spec fn spec_contents(&self) -> Seq<u8> {
        self.bytes@
    }
}

impl TmpFileClosed for ClosedTmpFile {
    type Reopened = TmpFileReader;

    open spec fn contents(&self) -> Seq<u8> {
        self.spec_contents()
    }

    fn reopen(self) -> (r: Self::Reopened) {
        TmpFileReader { bytes: self.bytes, pos: 0 }
    }
}

impl TmpFileOpened for TmpFileReader {
    type Closed = ClosedTmpFile;

    open spec fn contents(&self) -> Seq<u8> {
        self.spec_contents()
    }

    fn close(self) -> (r: Self::Closed) {
        ClosedTmpFile { bytes: self.bytes }
    }
}

impl TmpFileRead for TmpFileReader {
    open spec fn contents(&self) -> Seq<u8> {
        self.spec_contents()
    }

    closed spec fn read_from(&self) -> int {
        self.pos as int
    }

    fn close_and_remove(self) {
    }
}

impl TmpFileReader {
    /// The read position never passes the end.
    #[verifier::type_invariant]
    spec fn reader_wf(&self) -> bool {
        self.pos <= self.bytes@.len()
    }

    /// The whole contents of the reopened run.
    pub closed spec fn spec_contents(&self) -> Seq<u8> {
        self.bytes@
    }

    /// A reader that has read nothing still has its whole contents ahead.
    pub proof fn lemma_fresh_reader(&self)
        requires
            self.read_from() == 0,
        ensures
            self.remaining() == self.spec_contents(),
    {
        assert(self.bytes@.skip(0) =~= self.bytes@);
    }
}

impl ByteSource for TmpFileReader {
    closed spec fn remaining(&self) -> Seq<u8> {
        self.bytes@.skip(self.pos as int)
    }

    fn read_upto(&mut self, max: usize) -> (r: Vec<u8>)
    {
        proof {
            use_type_invariant(&*self);
        }
        let avail = self.bytes.len() - self.pos;
        let n = if max <= avail {
            max
        } else {
            avail
        };
        let mut r: Vec<u8> = Vec::new();
        let mut i: usize = 0;
        while i < n
            invariant
                self.reader_wf(),
                self.pos + n <= self.bytes@.len(),
                self.pos + n <= usize::MAX,
                i <= n,
                r@ == self.bytes@.subrange(self.pos as int, self.pos + i),
            decreases n - i,
        {
            let b = self.bytes[self.pos + i];
            r.push(b);
            i = i + 1;
            proof {
                assert(self.bytes@.subrange(self.pos as int, self.pos + i) =~= self.bytes@.subrange(
                    self.pos as int,
                    self.pos + i - 1,
                ).push(self.bytes@[self.pos + i - 1]));
            }
        }
        let ghost old_rem = self.remaining();
        self.pos = self.pos + n;
        proof {
            assert(r@ =~= old_rem.take(n as int));
            assert(self.bytes@.skip(self.pos as int) =~= old_rem.skip(n as int));
        }
        r
    }
}

/// Chooses where the run storage of one sort lives.
pub struct TmpDirBuilder {
    location: Option<String>,
}

impl TmpDirBuilder {
    /// The chosen location, if any.
    pub closed spec fn spec_location(&self) -> Option<Seq<char>> {
        match self.location {
            Some(l) => Some(l@),
            None => None,
        }
    }

    pub fn new() -> (r: Self)
        ensures
            r.spec_location() is None,
    {
        TmpDirBuilder { location: None }
    }

    pub fn with_location(self, location: &str) -> (r: Self)
        ensures
            r.spec_location() == Some(location@),
    {
        TmpDirBuilder { location: Some(location.to_owned()) }
    }

    /// The run store, initially empty.
    pub fn build(self) -> (r: TmpDir)
        ensures
            r.spec_created() == 0,
    {
        TmpDir { file_count: 0 }
    }
}

/// A scoped store of runs; counts the runs it has vended.
pub struct TmpDir {
    file_count: usize,
}

impl TmpDir {
    /// How many runs have been created.
    pub closed spec fn spec_created(&self) -> int {
        self.file_count as int
    }

    /// A fresh empty run open for writing.
    pub fn create_new_file(&mut self) -> (r: TmpFileWriter)
        ensures
            r.contents() == Seq::<u8>::empty(),
            final(self).spec_created() >= old(self).spec_created(),
            old(self).spec_created() < usize::MAX ==> final(self).spec_created() == old(
                self,
            ).spec_created() + 1,
    {
        if self.file_count < usize::MAX {
            self.file_count = self.file_count + 1;
        }
        TmpFileWriter { bytes: Vec::new() }
    }

    /// How many runs were created so far.
    pub fn created_files(&self) -> (r: usize)
        ensures
            r as int == self.spec_created(),
    {
        self.file_count
    }
}

} // verus!
