use vstd::prelude::*;
use vstd::slice::{slice_subrange, slice_to_vec};

use crate::errors::Errors;

verus! {

/// What a read at `offset` for `len` bytes returns: the stored bytes
/// from `offset` on, clipped to `len` and to the end of the store.
pub open spec fn read_window(c: Seq<u8>, offset: u64, len: usize) -> Seq<u8> {
    if offset as int >= c.len() {
        Seq::empty()
    } else if offset as int + len as int >= c.len() {
        c.subrange(offset as int, c.len() as int)
    } else {
        c.subrange(offset as int, offset as int + len as int)
    }
}

/// The abstract file-I/O capability the engine consumes: positional
/// read, append-only write and a durability barrier over one byte
/// store. Alternative backings implement the same contract.
pub trait IOManager: Sized {
    /// The bytes stored so far.
    spec fn contents(&self) -> Seq<u8>;

    /// Positional read of up to `len` bytes at `offset`, clipped at the
    /// end of the store; reading never disturbs the append cursor.
    fn read(&self, offset: u64, len: usize) -> (r: Result<Vec<u8>, Errors>)
        ensures
            r matches Ok(v) ==> v@ == read_window(self.contents(), offset, len),
    ;

    /// Append `buf` at the tail: on success the whole buffer is stored
    /// and the count is its length; on failure nothing has changed.
    fn write(&mut self, buf: &[u8]) -> (r: Result<usize, Errors>)
        ensures
            r matches Ok(n) ==> final(self).contents() == old(self).contents() + buf@ && n
                == buf@.len(),
            r is Err ==> final(self).contents() == old(self).contents(),
    ;

    /// Force durability of everything stored; the bytes do not change.
    fn sync(&mut self) -> (r: Result<(), Errors>)
        ensures
            final(self).contents() == old(self).contents(),
    ;
}

/// The default store behind a data file: a byte vector in memory. Its
/// operations never fail; callers that persist the bytes mirror them
/// out through whatever medium they own.
pub struct MemIO {
    data: Vec<u8>,
}

impl MemIO {
    /// The bytes stored so far.
    pub closed spec fn bytes(self) -> Seq<u8> {
        self.data@
    }

    /// How many bytes are stored.
    pub fn size(&self) -> (r: usize)
        ensures
            r == self.bytes().len(),
    {
        self.data.len()
    }

    /// Positional read, clipped at the end of the store.
    pub fn read_at(&self, offset: u64, len: usize) -> (r: Vec<u8>)
        ensures
            r@ == read_window(self.bytes(), offset, len),
    {
        let clen = self.data.len();
        if offset >= clen as u64 {
            let r: Vec<u8> = Vec::new();
            assert(r@ =~= read_window(self.bytes(), offset, len));
            return r;
        }
        let start = offset as usize;
        let end = if len > clen - start {
            clen
        } else {
            start + len
        };
        slice_to_vec(slice_subrange(self.data.as_slice(), start, end))
    }

    /// Append the bytes of `buf`; the count returned is its length.
    pub fn append(&mut self, buf: &[u8]) -> (r: usize)
        ensures
            final(self).bytes() == old(self).bytes() + buf@,
            r == buf@.len(),
    {
        self.data.extend_from_slice(buf);
        assert(self.data@ =~= old(self).bytes() + buf@);
        buf.len()
    }

    /// Cut the store down to its first `len` bytes.
    pub fn truncate(&mut self, len: usize)
        requires
            len <= old(self).bytes().len(),
        ensures
            final(self).bytes() == old(self).bytes().take(len as int),
    {
        self.data.truncate(len);
        assert(self.data@ =~= old(self).bytes().take(len as int));
    }
}

impl IOManager for MemIO {
    closed spec fn contents(&self) -> Seq<u8> {
        self.bytes()
    }

    fn read(&self, offset: u64, len: usize) -> (r: Result<Vec<u8>, Errors>) {
        Ok(self.read_at(offset, len))
    }

    fn write(&mut self, buf: &[u8]) -> (r: Result<usize, Errors>) {
        Ok(self.append(buf))
    }

    fn sync(&mut self) -> (r: Result<(), Errors>) {
        Ok(())
    }
}

/// A fresh, empty in-memory store.
pub fn new_io_manager() -> (r: MemIO)
    ensures
        r.bytes() == Seq::<u8>::empty(),
{
    let r = MemIO { data: Vec::new() };
    assert(r.bytes() =~= Seq::<u8>::empty());
    r
}

} // verus!
