use vstd::prelude::*;

use crate::errors::Errors;
use crate::fio::{new_io_manager, MemIO};
use crate::record::{decode_record, spec_parse_record, ReadLogRecord};

verus! {

/// A numbered append-only log segment: one store of bytes, a file id,
/// and the write cursor at the tail of what was appended so far.
pub struct DataFile {
    file_id: u32,
    write_off: u64,
    io: MemIO,
}

impl DataFile {
    /// The bytes the segment stores.
    pub closed spec fn contents(self) -> Seq<u8> {
        self.io.bytes()
    }

    /// The segment's file id.
    pub closed spec fn id(self) -> u32 {
        self.file_id
    }

    /// The write cursor.
    pub closed spec fn off(self) -> u64 {
        self.write_off
    }

    /// The write cursor sits exactly at the tail of the stored bytes,
    /// so the next append lands where the cursor says.
    pub open spec fn inv(self) -> bool {
        self.off() as int == self.contents().len()
    }

    /// A fresh, empty segment.
    pub fn new(file_id: u32) -> (r: DataFile)
        ensures
            r.id() == file_id,
            r.contents() == Seq::<u8>::empty(),
            r.off() == 0,
            r.inv(),
    {
        DataFile { file_id, write_off: 0, io: new_io_manager() }
    }

    /// A segment reopened over bytes recovered from elsewhere; the
    /// cursor starts at their tail.
    pub fn open_with(file_id: u32, data: Vec<u8>) -> (r: DataFile)
        ensures
            r.id() == file_id,
            r.contents() == data@,
            r.off() == data@.len(),
            r.inv(),
    {
        let mut io = new_io_manager();
        let n = io.append(data.as_slice());
        assert(io.bytes() =~= data@);
        DataFile { file_id, write_off: n as u64, io }
    }

    /// The segment's file id.
    pub fn get_file_id(&self) -> (r: u32)
        ensures
            r == self.id(),
    {
        self.file_id
    }

    /// The write cursor.
    pub fn get_write_off(&self) -> (r: u64)
        ensures
            r == self.off(),
    {
        self.write_off
    }

    /// Reposition the write cursor; the stored bytes are untouched.
    pub fn set_write_off(&mut self, offset: u64)
        ensures
            final(self).id() == old(self).id(),
            final(self).contents() == old(self).contents(),
            final(self).off() == offset,
    {
        self.write_off = offset;
    }

    /// Append a pre-encoded record at the tail and advance the cursor
    /// by exactly its length. The in-memory store never fails.
    pub fn write(&mut self, buf: &[u8]) -> (r: Result<usize, Errors>)
        requires
            old(self).inv(),
            old(self).off() + buf@.len() <= u64::MAX,
        ensures
            final(self).inv(),
            final(self).id() == old(self).id(),
            final(self).contents() == old(self).contents() + buf@,
            final(self).off() == old(self).off() + buf@.len(),
            r matches Ok(n) && n == buf@.len(),
    {
        let n = self.io.append(buf);
        self.write_off = self.write_off + (n as u64);
        Ok(n)
    }

    /// Force durability of all prior appends; nothing changes in the
    /// in-memory store.
    pub fn sync(&mut self) -> (r: Result<(), Errors>)
        ensures
            *final(self) == *old(self),
            r is Ok,
    {
        Ok(())
    }

    /// Cut the segment back to its first `offset` bytes and park the
    /// cursor there; recovery uses it to drop a torn tail.
    pub fn truncate_to(&mut self, offset: u64)
        requires
            (offset as int) <= old(self).contents().len(),
        ensures
            final(self).id() == old(self).id(),
            final(self).contents() == old(self).contents().take(offset as int),
            final(self).off() == offset,
            final(self).inv(),
    {
        let sz = self.io.size();
        assert(offset <= sz as u64);
        self.io.truncate(offset as usize);
        self.write_off = offset;
    }

    /// A copy of the segment's bytes.
    pub fn contents_vec(&self) -> (r: Vec<u8>)
        ensures
            r@ == self.contents(),
    {
        let sz = self.io.size();
        let r = self.io.read_at(0, sz);
        assert(r@ =~= self.contents());
        r
    }

    /// Decode the record that starts at `offset`. At or past the tail
    /// of the stored bytes the read reports a clean end of file; bytes
    /// that do not parse as a whole record report corruption.
    pub fn read_log_record(&self, offset: u64) -> (r: Result<ReadLogRecord, Errors>)
        ensures
            match r {
                Ok(rr) => (offset as int) < self.contents().len() && spec_parse_record(
                    self.contents().skip(offset as int),
                ) == Some((rr.record@, rr.size as nat)) && offset + rr.size
                    <= self.contents().len() && rr.size >= 1,
                Err(Errors::ReadDataFileEOF) => offset as int >= self.contents().len(),
                Err(Errors::CorruptRecord) => (offset as int) < self.contents().len()
                    && spec_parse_record(self.contents().skip(offset as int)) is None,
                Err(_) => false,
            },
    {
        let sz = self.io.size();
        if offset >= sz as u64 {
            return Err(Errors::ReadDataFileEOF);
        }
        let start = offset as usize;
        let tail = self.io.read_at(offset, sz - start);
        assert(tail@ =~= self.contents().skip(offset as int));
        match decode_record(tail.as_slice(), 0) {
            Ok(rr) => {
                assert(tail@.skip(0) =~= tail@);
                Ok(rr)
            },
            Err(e) => {
                assert(tail@.skip(0) =~= tail@);
                Err(e)
            },
        }
    }
}

/// The stem is nothing but decimal digits.
pub open spec fn all_digits(s: Seq<u8>) -> bool {
    forall|i: int| 0 <= i < s.len() ==> 48 <= #[trigger] s[i] <= 57
}

/// The number a run of decimal digits denotes.
pub open spec fn digits_value(s: Seq<u8>) -> nat
    decreases s.len(),
{
    if s.len() == 0 {
        0
    } else {
        (digits_value(s.drop_last()) * 10 + (s.last() - 48)) as nat
    }
}

/// The name ends in `.data`.
pub open spec fn has_data_suffix(name: Seq<u8>) -> bool {
    name.len() >= 5 && name.subrange(name.len() - 5, name.len() as int) == seq![
        46u8,
        100u8,
        97u8,
        116u8,
        97u8,
    ]
}

/// A longer digit run never denotes a smaller number.
proof fn lemma_digits_value_monotone(s: Seq<u8>, i: int, j: int)
    requires
        0 <= i <= j <= s.len(),
        all_digits(s),
    ensures
        digits_value(s.take(i)) <= digits_value(s.take(j)),
    decreases j - i,
{
    if i < j {
        lemma_digits_value_monotone(s, i, j - 1);
        let p = s.take(j);
        assert(p.drop_last() =~= s.take(j - 1));
        assert(digits_value(s.take(j - 1)) * 10 >= digits_value(s.take(j - 1))) by (nonlinear_arith);
    }
}

/// Parse a directory entry's name: `Some(id)` exactly when the name is
/// a run of decimal digits denoting `id`, followed by `.data`. Other
/// names, and ids past 32 bits, give `None`; the caller tells files to
/// ignore from corruption by whether the suffix was there.
pub fn parse_data_file_name(name: &[u8]) -> (r: Option<u32>)
    ensures
        match r {
            Some(id) => has_data_suffix(name@) && name@.len() > 5 && all_digits(
                name@.take(name@.len() - 5),
            ) && digits_value(name@.take(name@.len() - 5)) == id,
            None => !(has_data_suffix(name@) && name@.len() > 5 && all_digits(
                name@.take(name@.len() - 5),
            ) && digits_value(name@.take(name@.len() - 5)) <= u32::MAX),
        },
{
    let n = name.len();
    if n < 6 {
        return None;
    }
    if !(name[n - 5] == 46 && name[n - 4] == 100 && name[n - 3] == 97 && name[n - 2] == 116
        && name[n - 1] == 97) {
        proof {
            if has_data_suffix(name@) {
                assert(name@.subrange(name@.len() - 5, name@.len() as int)[0] == name@[name@.len()
                    - 5]);
            }
        }
        return None;
    }
    proof {
        assert(name@.subrange(name@.len() - 5, name@.len() as int) =~= seq![
            46u8,
            100u8,
            97u8,
            116u8,
            97u8,
        ]);
    }
    let ghost stem = name@.take(name@.len() - 5);
    let mut id: u32 = 0;
    let mut i: usize = 0;
    while i < n - 5
        invariant
            n == name@.len(),
            6 <= n,
            stem == name@.take(name@.len() - 5),
            has_data_suffix(name@),
            0 <= i <= n - 5,
            forall|j: int| 0 <= j < i ==> 48 <= #[trigger] stem[j] <= 57,
            id == digits_value(stem.take(i as int)),
        decreases n - 5 - i,
    {
        let b = name[i];
        assert(b == stem[i as int]);
        if b < 48 || b > 57 {
            return None;
        }
        let d: u32 = (b - 48) as u32;
        proof {
            assert(stem.take(i as int + 1).drop_last() =~= stem.take(i as int));
            assert(stem.take(i as int + 1).last() == stem[i as int]);
        }
        if id > (u32::MAX - d) / 10 {
            proof {
                vstd::arithmetic::div_mod::lemma_fundamental_div_mod((u32::MAX - d) as int, 10);
                assert(id as int * 10 >= (((u32::MAX - d) / 10) as int + 1) * 10)
                    by (nonlinear_arith)
                    requires
                        id as int >= ((u32::MAX - d) / 10) as int + 1,
                ;
                assert(digits_value(stem.take(i as int + 1)) > u32::MAX);
                if all_digits(stem) {
                    lemma_digits_value_monotone(stem, i as int + 1, stem.len() as int);
                    assert(stem.take(stem.len() as int) =~= stem);
                }
            }
            return None;
        }
        proof {
            vstd::arithmetic::div_mod::lemma_fundamental_div_mod((u32::MAX - d) as int, 10);
            assert(id as int * 10 <= ((u32::MAX - d) / 10) as int * 10) by (nonlinear_arith)
                requires
                    id as int <= ((u32::MAX - d) / 10) as int,
            ;
        }
        id = id * 10 + d;
        i = i + 1;
    }
    proof {
        assert(stem.take(i as int) =~= stem);
    }
    Some(id)
}

} // verus!
