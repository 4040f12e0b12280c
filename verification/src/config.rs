//! The sorter's tunables.

use vstd::prelude::*;

use crate::error::SortError;

verus! {

/// The tunables of a sort run.  `threads` is the worker count, `buffer_size`
/// the memory budget in bytes, `chunk_size` the merge fan-in, `delimiter`
/// the field separator byte and `field` the index of the delimiter-selected
/// sort key, where 0 selects the whole line.
#[derive(Clone, Copy)]
pub struct Configuration {
    pub threads: usize,
    pub buffer_size: usize,
    pub chunk_size: usize,
    pub delimiter: u8,
    pub field: usize,
}

/// Relies on bytesize::MB: one megabyte is 1_000_000 bytes.
#[verifier::external_body]
pub(crate) fn megabyte() -> (r: u64)
    ensures
        r == 1000000u64,
{
    bytesize::MB
}

/// Relies on bytesize::MIB: one mebibyte is 1_048_576 bytes.
#[verifier::external_body]
pub(crate) fn mebibyte() -> (r: u64)
    ensures
        r == 1048576u64,
{
    bytesize::MIB
}

impl Default for Configuration {
    /// Four workers, a 400 megabyte budget, fan-in 16, tab delimiter,
    /// whole-line keys.
    fn default() -> (r: Self)
        ensures
            r.threads == 4,
            r.buffer_size == 400000000,
            r.chunk_size == 16,
            r.delimiter == 9u8,
            r.field == 0,
    {
        let mb = megabyte();
        (Configuration {
            threads: 4,
            buffer_size: (400 * mb) as usize,
            chunk_size: 16,
            delimiter: 9u8,
            field: 0,
        })
    }
}

impl Configuration {
    /// Accepts exactly the configurations with at least one worker, a budget
    /// of at least one mebibyte and a fan-in of at least two.
    pub fn validate(&self) -> (r: Result<(), SortError>)
        ensures
            r is Ok <==> (self.threads >= 1 && self.buffer_size >= 1048576 && self.chunk_size
                >= 2),
            r is Err ==> r == Err::<(), SortError>(SortError::ConfigInvalid),
    {
        let mib = mebibyte();
        if self.threads >= 1 && self.buffer_size as u64 >= mib && self.chunk_size >= 2 {
            Ok(())
        } else {
            Err(SortError::ConfigInvalid)
        }
    }
}

} // verus!
