use vstd::prelude::*;

use crate::data::log_record::{byte_at, read_padded};
use crate::errors::Errors;
use crate::fio::IOManager;

verus! {

/// An append-only byte store held in memory. It is the engine's picture of
/// one data file: the caller that owns real files loads their bytes in at
/// open and carries appended bytes back out.
pub struct FileIO {
    data: Vec<u8>,
}

impl View for FileIO {
    type V = Seq<u8>;

    closed spec fn view(&self) -> Seq<u8> {
        self.data@
    }
}

impl FileIO {
    /// A store holding the given bytes.
    pub fn new(initial: Vec<u8>) -> (r: Self)
        ensures
            r@ == initial@,
    {
        FileIO { data: initial }
    }

    /// Number of bytes the store holds.
    pub fn len(&self) -> (r: usize)
        ensures
            r == self@.len(),
    {
        self.data.len()
    }

    /// Discards every byte from `at` on.
    pub fn truncate(&mut self, at: usize)
        requires
            at <= old(self)@.len(),
        ensures
            final(self)@ == old(self)@.subrange(0, at as int),
    {
        self.data.truncate(at);
    }

    /// The whole store as an owned byte vector.
    pub fn to_vec(&self) -> (r: Vec<u8>)
        ensures
            r@ == self@,
    {
        crate::util::clone_bytes(&self.data)
    }
}

impl IOManager for FileIO {
    fn read(&self, offset: u64, len: usize) -> (r: Vec<u8>)
        ensures
            r@ == read_padded(self@, offset as int, len as nat),
    {
        let mut out: Vec<u8> = Vec::new();
        let mut i: usize = 0;
        let flen = self.data.len();
        while i < len
            invariant
                i <= len,
                flen == self@.len(),
                out@.len() == i,
                forall|q: int| 0 <= q < i ==> out@[q] == byte_at(self@, offset + q),
            decreases len - i,
        {
            if offset < flen as u64 && (i as u64) < flen as u64 - offset {
                let idx = (offset + i as u64) as usize;
                out.push(self.data[idx]);
            } else {
                out.push(0);
            }
            i = i + 1;
        }
        proof {
            assert(out@ =~= read_padded(self@, offset as int, len as nat));
        }
        out
    }

    fn write(&mut self, buf: &Vec<u8>) -> (r: Result<usize, Errors>)
        ensures
            final(self)@ == old(self)@ + buf@,
            r == Ok::<usize, Errors>(buf.len()),
    {
        let mut i: usize = 0;
        while i < buf.len()
            invariant
                i <= buf.len(),
                self@ == old(self)@ + buf@.subrange(0, i as int),
            decreases buf.len() - i,
        {
            self.data.push(buf[i]);
            proof {
                assert(old(self)@ + buf@.subrange(0, i + 1) =~= (old(self)@ + buf@.subrange(
                    0,
                    i as int,
                )).push(buf@[i as int]));
            }
            i = i + 1;
        }
        proof {
            assert(buf@.subrange(0, buf@.len() as int) =~= buf@);
        }
        Ok(buf.len())
    }

    fn sync(&self) -> (r: Result<(), Errors>) {
        Ok(())
    }
}

} // verus!
