use vstd::prelude::*;

use crate::data::log_record::read_padded;
use crate::errors::Errors;
use crate::fio::file_io::FileIO;

pub mod file_io;

verus! {

/// Positional reads, appending writes and syncing against one backing store.
/// A store's view is the byte sequence it holds; reads past its end are
/// zero-padded, as a positional read into a zeroed buffer is.
pub trait IOManager: View<V = Seq<u8>> + Sized {
    /// `len` bytes starting at `offset`, zero-padded past the end.
    fn read(&self, offset: u64, len: usize) -> (r: Vec<u8>)
        ensures
            r@ == read_padded(self@, offset as int, len as nat),
    ;

    /// Appends the bytes and reports how many were written.
    fn write(&mut self, buf: &Vec<u8>) -> (r: Result<usize, Errors>)
        ensures
            final(self)@ == old(self)@ + buf@,
            r == Ok::<usize, Errors>(buf.len()),
    ;

    /// Forces the bytes down to the backing store.
    fn sync(&self) -> (r: Result<(), Errors>)
        ensures
            r is Ok,
    ;
}

/// The store a data file runs on.
pub fn new_io_manager(initial: Vec<u8>) -> (r: FileIO)
    ensures
        r@ == initial@,
{
    FileIO::new(initial)
}

} // verus!
