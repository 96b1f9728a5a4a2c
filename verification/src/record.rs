use vstd::prelude::*;
use vstd::arithmetic::div_mod::lemma_fundamental_div_mod;
use vstd::slice::{slice_subrange, slice_to_vec};

use crate::errors::Errors;

verus! {

/// Kind of a log record: a normal write or a deletion tombstone.
#[derive(Clone, Copy, Debug, PartialEq, Eq, Structural)]
pub enum LogRecordType {
    NORMAL,
    DELETED,
}

impl LogRecordType {
    /// The byte tag under which this kind is stored in a data file.
    pub open spec fn spec_tag(self) -> u8 {
        match self {
            LogRecordType::NORMAL => 1,
            LogRecordType::DELETED => 2,
        }
    }

    /// Exec counterpart of `spec_tag`.
    pub fn tag(self) -> (r: u8)
        ensures
            r == self.spec_tag(),
    {
        match self {
            LogRecordType::NORMAL => 1,
            LogRecordType::DELETED => 2,
        }
    }

    /// Inverse of the tag. Unknown tags are rejected by decoding
    /// before this is reached, so only the two known tags are allowed.
    pub fn from_u8(v: u8) -> (r: Self)
        requires
            v == 1 || v == 2,
        ensures
            r.spec_tag() == v,
    {
        if v == 1 {
            LogRecordType::NORMAL
        } else {
            LogRecordType::DELETED
        }
    }
}

/// The unit of persistence: one key/value write or one tombstone,
/// stored as a single contiguous byte string in a data file.
#[derive(Debug)]
pub struct LogRecord {
    pub key: Vec<u8>,
    pub value: Vec<u8>,
    pub rec_type: LogRecordType,
}

/// Mathematical image of a `LogRecord`.
pub ghost struct LogRecordView {
    pub key: Seq<u8>,
    pub value: Seq<u8>,
    pub rec_type: LogRecordType,
}

impl View for LogRecord {
    type V = LogRecordView;

    open spec fn view(&self) -> LogRecordView {
        LogRecordView { key: self.key@, value: self.value@, rec_type: self.rec_type }
    }
}

/// Pointer into the log set: which file a record sits in, and the byte
/// offset of its first byte within that file.
#[derive(Clone, Copy, Debug, PartialEq, Eq, Structural)]
pub struct LogRecordPos {
    pub file_id: u32,
    pub offset: u64,
}

/// A record decoded from a data file, together with its total encoded
/// size so the caller can advance to the next record.
#[derive(Debug)]
pub struct ReadLogRecord {
    pub record: LogRecord,
    pub size: usize,
}

/// CRC-32 (IEEE polynomial) of a byte string. The checksum is computed
/// by an outside routine; the value is a function of the bytes alone,
/// so it carries a name and the contracts speak only of that name.
pub uninterp spec fn crc32_of(data: Seq<u8>) -> u32;

/// Relies on crc32fast::hash: the CRC-32 (IEEE) checksum of the bytes,
/// a pure function of the byte string.
#[verifier::external_body]
fn crc32(data: &[u8]) -> (r: u32)
    ensures
        r == crc32_of(data@),
{
    crc32fast::hash(data)
}

/// LEB128 encoding of an unsigned integer: seven bits per byte, least
/// significant group first, the continuation bit set on every byte but
/// the last.
pub open spec fn spec_varint(n: nat) -> Seq<u8>
    decreases n,
{
    if n < 128 {
        seq![n as u8]
    } else {
        seq![((n % 128) + 128) as u8] + spec_varint(n / 128)
    }
}

/// Parse an LEB128 integer from the front of `s`: the value and the
/// number of bytes consumed, or `None` if the bytes run out first.
pub open spec fn spec_varint_parse(s: Seq<u8>) -> Option<(nat, nat)>
    decreases s.len(),
{
    if s.len() == 0 {
        None
    } else if s[0] < 128 {
        Some((s[0] as nat, 1))
    } else {
        match spec_varint_parse(s.skip(1)) {
            Some(p) => Some(((((s[0] - 128) + 128 * p.0) as nat, (p.1 + 1) as nat))),
            None => None,
        }
    }
}

/// A parsed varint consumed at least one byte and no more than there are.
pub proof fn lemma_varint_parse_bounds(s: Seq<u8>)
    requires
        spec_varint_parse(s) is Some,
    ensures
        1 <= spec_varint_parse(s)->Some_0.1 <= s.len(),
    decreases s.len(),
{
    if s.len() > 0 && s[0] >= 128 {
        lemma_varint_parse_bounds(s.skip(1));
    }
}

/// Parsing reads only the consumed bytes: any byte string that agrees
/// with `x` on those bytes, and is at least as long, parses the same.
pub proof fn lemma_varint_parse_window(x: Seq<u8>, y: Seq<u8>)
    requires
        spec_varint_parse(x) is Some,
        y.len() >= spec_varint_parse(x)->Some_0.1,
        y.take(spec_varint_parse(x)->Some_0.1 as int) == x.take(
            spec_varint_parse(x)->Some_0.1 as int,
        ),
    ensures
        spec_varint_parse(y) == spec_varint_parse(x),
    decreases x.len(),
{
    lemma_varint_parse_bounds(x);
    let l = spec_varint_parse(x)->Some_0.1 as int;
    assert(y[0] == y.take(l)[0]);
    assert(x[0] == x.take(l)[0]);
    if x[0] < 128 {
    } else {
        lemma_varint_parse_bounds(x.skip(1));
        let l1 = spec_varint_parse(x.skip(1))->Some_0.1 as int;
        assert(y.skip(1).take(l1) =~= x.skip(1).take(l1)) by {
            assert(forall|i: int|
                0 <= i < l1 ==> y.skip(1).take(l1)[i] == y.take(l)[i + 1]
                    && x.skip(1).take(l1)[i] == x.take(l)[i + 1]);
        }
        lemma_varint_parse_window(x.skip(1), y.skip(1));
    }
}

/// Round trip: an encoded varint parses back to the value, consuming
/// exactly the encoded bytes, whatever follows them.
pub proof fn lemma_varint_round_trip(n: nat, tail: Seq<u8>)
    ensures
        spec_varint_parse(spec_varint(n) + tail) == Some(
            (n, spec_varint(n).len()),
        ),
    decreases n,
{
    let e = spec_varint(n);
    let s = e + tail;
    if n < 128 {
        assert(s[0] == n as u8);
    } else {
        assert(s[0] == ((n % 128) + 128) as u8);
        assert(s.skip(1) =~= spec_varint(n / 128) + tail);
        lemma_varint_round_trip(n / 128, tail);
        lemma_fundamental_div_mod(n as int, 128);
    }
}

/// The four bytes of a 32-bit integer, least significant first.
pub open spec fn spec_u32_le(n: u32) -> Seq<u8> {
    seq![
        (n % 256) as u8,
        ((n / 256) % 256) as u8,
        ((n / 65536) % 256) as u8,
        ((n / 16777216) % 256) as u8,
    ]
}

/// Exec counterpart of `spec_u32_le`.
fn u32_le_bytes(n: u32) -> (r: [u8; 4])
    ensures
        r@ == spec_u32_le(n),
{
    let r: [u8; 4] = [
        (n % 256) as u8,
        ((n / 256) % 256) as u8,
        ((n / 65536) % 256) as u8,
        ((n / 16777216) % 256) as u8,
    ];
    assert(r@ =~= spec_u32_le(n));
    r
}

/// The checksummed part of an encoded record, in order: the type tag,
/// the key size, the value size, the key bytes, the value bytes.
pub open spec fn spec_encode_body(r: LogRecordView) -> Seq<u8> {
    seq![r.rec_type.spec_tag()] + spec_varint(r.key.len()) + spec_varint(r.value.len()) + r.key
        + r.value
}

/// A whole encoded record: the body followed by the CRC-32 of the body
/// in four little-endian bytes.
pub open spec fn spec_encode(r: LogRecordView) -> Seq<u8> {
    spec_encode_body(r) + spec_u32_le(crc32_of(spec_encode_body(r)))
}

/// Parse one record from the front of `s`: the record and its total
/// encoded size. `None` means the bytes do not carry a whole record
/// with a valid tag and checksum.
pub open spec fn spec_parse_record(s: Seq<u8>) -> Option<(LogRecordView, nat)> {
    if s.len() == 0 {
        None
    } else if s[0] != 1 && s[0] != 2 {
        None
    } else {
        match spec_varint_parse(s.skip(1)) {
            None => None,
            Some((ksz, l1)) => match spec_varint_parse(s.skip(1 + l1 as int)) {
                None => None,
                Some((vsz, l2)) => {
                    let hdr = 1 + l1 + l2;
                    let total = hdr + ksz + vsz + 4;
                    if s.len() < total {
                        None
                    } else if s.subrange((hdr + ksz + vsz) as int, total as int) != spec_u32_le(
                        crc32_of(s.take((hdr + ksz + vsz) as int)),
                    ) {
                        None
                    } else {
                        Some(
                            (
                                LogRecordView {
                                    key: s.subrange(hdr as int, (hdr + ksz) as int),
                                    value: s.subrange((hdr + ksz) as int, (hdr + ksz + vsz) as int),
                                    rec_type: if s[0] == 1 {
                                        LogRecordType::NORMAL
                                    } else {
                                        LogRecordType::DELETED
                                    },
                                },
                                total,
                            ),
                        )
                    }
                },
            },
        }
    }
}

/// A parsed record occupies at least its fixed parts and fits in `s`.
pub proof fn lemma_parse_record_bounds(s: Seq<u8>)
    requires
        spec_parse_record(s) is Some,
    ensures
        6 <= spec_parse_record(s)->Some_0.1 <= s.len(),
{
    lemma_varint_parse_bounds(s.skip(1));
    let l1 = spec_varint_parse(s.skip(1))->Some_0.1 as int;
    lemma_varint_parse_bounds(s.skip(1 + l1));
}

/// Parsing a record reads only the consumed bytes: any byte string
/// that agrees with `x` on those bytes, and is at least as long,
/// parses to the same record and size.
pub proof fn lemma_parse_record_window(x: Seq<u8>, y: Seq<u8>)
    requires
        spec_parse_record(x) is Some,
        y.len() >= spec_parse_record(x)->Some_0.1,
        y.take(spec_parse_record(x)->Some_0.1 as int) == x.take(
            spec_parse_record(x)->Some_0.1 as int,
        ),
    ensures
        spec_parse_record(y) == spec_parse_record(x),
{
    lemma_parse_record_bounds(x);
    let n = spec_parse_record(x)->Some_0.1 as int;
    assert(forall|i: int| 0 <= i < n ==> x[i] == #[trigger] y[i]) by {
        assert(forall|i: int|
            0 <= i < n ==> x.take(n)[i] == x[i] && y.take(n)[i] == #[trigger] y[i]);
    }
    lemma_varint_parse_bounds(x.skip(1));
    let (ksz, l1) = spec_varint_parse(x.skip(1))->Some_0;
    assert(x.skip(1).take(l1 as int) =~= y.skip(1).take(l1 as int));
    lemma_varint_parse_window(x.skip(1), y.skip(1));
    lemma_varint_parse_bounds(x.skip(1 + l1 as int));
    let (vsz, l2) = spec_varint_parse(x.skip(1 + l1 as int))->Some_0;
    assert(x.skip(1 + l1 as int).take(l2 as int) =~= y.skip(1 + l1 as int).take(l2 as int));
    lemma_varint_parse_window(x.skip(1 + l1 as int), y.skip(1 + l1 as int));
    let hdr = 1 + l1 + l2;
    let body = (hdr + ksz + vsz) as int;
    assert(y.len() >= n);
    assert(x.take(body) =~= y.take(body));
    assert(x.subrange(body, n) =~= y.subrange(body, n));
    assert(x.subrange(hdr as int, (hdr + ksz) as int) =~= y.subrange(hdr as int, (hdr + ksz) as int));
    assert(x.subrange((hdr + ksz) as int, body) =~= y.subrange((hdr + ksz) as int, body));
}

/// Appending bytes after a whole record does not change how it parses.
pub proof fn lemma_parse_record_append(x: Seq<u8>, t: Seq<u8>)
    requires
        spec_parse_record(x) is Some,
    ensures
        spec_parse_record(x + t) == spec_parse_record(x),
{
    lemma_parse_record_bounds(x);
    let n = spec_parse_record(x)->Some_0.1 as int;
    assert((x + t).take(n) =~= x.take(n));
    lemma_parse_record_window(x, x + t);
}

/// Cutting a byte string just after a whole record does not change how
/// the record parses.
pub proof fn lemma_parse_record_take(x: Seq<u8>)
    requires
        spec_parse_record(x) is Some,
    ensures
        spec_parse_record(x.take(spec_parse_record(x)->Some_0.1 as int)) == spec_parse_record(x),
{
    lemma_parse_record_bounds(x);
    let n = spec_parse_record(x)->Some_0.1 as int;
    assert(x.take(n).take(n) =~= x.take(n));
    lemma_parse_record_window(x, x.take(n));
}

/// Round trip: decoding an encoded record yields the record back and
/// consumes exactly its bytes, whatever bytes follow it.
pub proof fn lemma_codec_round_trip(r: LogRecordView, tail: Seq<u8>)
    ensures
        spec_parse_record(spec_encode(r) + tail) == Some(
            (r, spec_encode(r).len()),
        ),
{
    let body = spec_encode_body(r);
    let e = spec_encode(r);
    let s = e + tail;
    let ksz = r.key.len();
    let vsz = r.value.len();
    let e1 = spec_varint(ksz);
    let e2 = spec_varint(vsz);
    let l1 = e1.len();
    let l2 = e2.len();
    assert(s[0] == r.rec_type.spec_tag());
    assert(s.skip(1) =~= e1 + (e2 + r.key + r.value + spec_u32_le(crc32_of(body)) + tail));
    lemma_varint_round_trip(ksz, e2 + r.key + r.value + spec_u32_le(crc32_of(body)) + tail);
    lemma_varint_parse_bounds(s.skip(1));
    assert(s.skip(1 + l1 as int) =~= e2 + (r.key + r.value + spec_u32_le(crc32_of(body)) + tail));
    lemma_varint_round_trip(vsz, r.key + r.value + spec_u32_le(crc32_of(body)) + tail);
    let hdr = 1 + l1 + l2;
    let bodylen = (hdr + ksz + vsz) as int;
    let total = hdr + ksz + vsz + 4;
    assert(e.len() == total);
    assert(s.len() >= total);
    assert(s.take(bodylen) =~= body);
    assert(s.subrange(bodylen, total as int) =~= spec_u32_le(crc32_of(body)));
    assert(s.subrange(hdr as int, (hdr + ksz) as int) =~= r.key);
    assert(s.subrange((hdr + ksz) as int, bodylen) =~= r.value);
    let parsed = spec_parse_record(s)->Some_0.0;
    assert(parsed.rec_type == r.rec_type);
    assert(parsed == r);
}

/// Append the LEB128 encoding of `n` to `buf`.
fn write_varint(buf: &mut Vec<u8>, n: u64)
    ensures
        final(buf)@ == old(buf)@ + spec_varint(n as nat),
    decreases n,
{
    if n < 128 {
        buf.push(n as u8);
        assert(buf@ =~= old(buf)@ + spec_varint(n as nat));
    } else {
        buf.push(((n % 128) + 128) as u8);
        write_varint(buf, n / 128);
        assert(buf@ =~= old(buf)@ + spec_varint(n as nat));
    }
}

/// Read an LEB128 integer from `buf` starting at `start`. Fails when
/// the bytes run out before the last group, or when the value does not
/// fit in 64 bits.
fn read_varint(buf: &[u8], start: usize) -> (r: Result<(u64, usize), Errors>)
    requires
        start <= buf@.len(),
    ensures
        match r {
            Ok((v, l)) => spec_varint_parse(buf@.skip(start as int)) == Some(
                (v as nat, l as nat),
            ) && start + l <= buf@.len() && l >= 1,
            Err(e) => e == Errors::CorruptRecord && (spec_varint_parse(buf@.skip(start as int))
                is None || spec_varint_parse(buf@.skip(start as int))->Some_0.0 > u64::MAX),
        },
    decreases buf@.len() - start,
{
    if start == buf.len() {
        assert(buf@.skip(start as int).len() == 0);
        return Err(Errors::CorruptRecord);
    }
    let b = buf[start];
    assert(b == buf@.skip(start as int)[0]);
    if b < 128 {
        Ok((b as u64, 1))
    } else {
        assert(buf@.skip(start as int).skip(1) =~= buf@.skip(start as int + 1));
        match read_varint(buf, start + 1) {
            Err(e) => Err(e),
            Ok((v, l)) => {
                let low: u64 = (b - 128) as u64;
                let q: u64 = (u64::MAX - low) / 128;
                proof {
                    lemma_fundamental_div_mod((u64::MAX - low) as int, 128);
                    assert((u64::MAX - low) as int == 128 * (q as int) + ((u64::MAX - low) as int
                        % 128));
                }
                if v > q {
                    proof {
                        assert(128 * (v as int) >= 128 * (q as int + 1)) by (nonlinear_arith)
                            requires
                                v as int >= q as int + 1,
                        ;
                        let p = spec_varint_parse(buf@.skip(start as int))->Some_0;
                        assert(p.0 == low + 128 * (v as nat));
                    }
                    Err(Errors::CorruptRecord)
                } else {
                    proof {
                        assert(128 * (v as int) <= 128 * (q as int)) by (nonlinear_arith)
                            requires
                                v as int <= q as int,
                        ;
                    }
                    Ok((low + 128 * v, l + 1))
                }
            },
        }
    }
}

/// Append the bytes of `src` to `dst`.
fn push_bytes(dst: &mut Vec<u8>, src: &[u8])
    ensures
        final(dst)@ == old(dst)@ + src@,
{
    dst.extend_from_slice(src);
    assert(dst@ =~= old(dst)@ + src@);
}

impl LogRecord {
    /// The checksummed body of the encoding: tag, sizes, key, value.
    fn encode_body(&self) -> (r: Vec<u8>)
        ensures
            r@ == spec_encode_body(self@),
    {
        let mut buf: Vec<u8> = Vec::new();
        buf.push(self.rec_type.tag());
        assert(buf@ =~= seq![self@.rec_type.spec_tag()]);
        write_varint(&mut buf, self.key.len() as u64);
        write_varint(&mut buf, self.value.len() as u64);
        push_bytes(&mut buf, self.key.as_slice());
        push_bytes(&mut buf, self.value.as_slice());
        assert(buf@ =~= spec_encode_body(self@));
        buf
    }

    /// Encode the record as the byte string stored in a data file:
    /// the body followed by its CRC-32 in four little-endian bytes.
    pub fn encode(&self) -> (r: Vec<u8>)
        ensures
            r@ == spec_encode(self@),
    {
        let mut buf = self.encode_body();
        let crc = crc32(buf.as_slice());
        let tailb = u32_le_bytes(crc);
        push_bytes(&mut buf, tailb.as_slice());
        assert(buf@ =~= spec_encode(self@));
        buf
    }

    /// The CRC-32 of the record's encoded body.
    pub fn get_crc(&self) -> (r: u32)
        ensures
            r == crc32_of(spec_encode_body(self@)),
    {
        let buf = self.encode_body();
        crc32(buf.as_slice())
    }
}

/// Upper bound on the encoded size of fields before the key: the tag
/// byte plus two LEB128 size fields of at most five bytes each, for
/// sizes up to 32 bits. Callers may pre-size a header read with it.
pub fn max_log_record_header_size() -> (r: usize)
    ensures
        r == 11,
{
    1 + 2 * 5
}

/// Decode one record from `buf` at `offset`, as `spec_parse_record`
/// describes on the bytes from `offset` on.
pub fn decode_record(buf: &[u8], offset: usize) -> (r: Result<ReadLogRecord, Errors>)
    requires
        offset <= buf@.len(),
    ensures
        match r {
            Ok(rr) => spec_parse_record(buf@.skip(offset as int)) == Some(
                (rr.record@, rr.size as nat),
            ) && offset + rr.size <= buf@.len() && rr.size >= 1,
            Err(e) => e == Errors::CorruptRecord && spec_parse_record(
                buf@.skip(offset as int),
            ) is None,
        },
{
    let ghost s = buf@.skip(offset as int);
    if offset == buf.len() {
        return Err(Errors::CorruptRecord);
    }
    let tag = buf[offset];
    assert(tag == s[0]);
    if tag != 1 && tag != 2 {
        return Err(Errors::CorruptRecord);
    }
    assert(buf@.skip(offset as int + 1) =~= s.skip(1));
    let (ksz, l1) = match read_varint(buf, offset + 1) {
        Ok(p) => p,
        Err(e) => {
            proof {
                if spec_varint_parse(s.skip(1)) is Some {
                    let p = spec_varint_parse(s.skip(1))->Some_0;
                    assert(p.0 > u64::MAX);
                    if spec_parse_record(s) is Some {
                        lemma_parse_record_bounds(s);
                        assert(s.len() >= 1 + p.0);
                        assert(s.len() <= buf@.len());
                    }
                }
            }
            return Err(Errors::CorruptRecord);
        },
    };
    assert(buf@.skip((offset + 1 + l1) as int) =~= s.skip(1 + l1 as int));
    let (vsz, l2) = match read_varint(buf, offset + 1 + l1) {
        Ok(p) => p,
        Err(e) => {
            proof {
                if spec_varint_parse(s.skip(1 + l1 as int)) is Some {
                    let p = spec_varint_parse(s.skip(1 + l1 as int))->Some_0;
                    assert(p.0 > u64::MAX);
                    if spec_parse_record(s) is Some {
                        lemma_parse_record_bounds(s);
                        assert(s.len() >= 1 + l1 + p.0);
                        assert(s.len() <= buf@.len());
                    }
                }
            }
            return Err(Errors::CorruptRecord);
        },
    };
    // Sizes are now known; check that the whole record is present.
    let remaining: u64 = (buf.len() - offset) as u64;
    assert(offset + 1 + l1 + l2 <= buf@.len());
    let hdr: u64 = 1 + (l1 as u64) + (l2 as u64);
    assert(s.len() == remaining);
    assert(hdr <= remaining);
    let after_hdr: u64 = remaining - hdr;
    if ksz > after_hdr || vsz > after_hdr - ksz || 4 > after_hdr - ksz - vsz {
        assert(spec_parse_record(s) is None);
        return Err(Errors::CorruptRecord);
    }
    let hdru: usize = 1 + l1 + l2;
    let kszu: usize = ksz as usize;
    let vszu: usize = vsz as usize;
    let body_end: usize = offset + hdru + kszu + vszu;
    let key: Vec<u8> = slice_to_vec(slice_subrange(buf, offset + hdru, offset + hdru + kszu));
    let value: Vec<u8> = slice_to_vec(slice_subrange(buf, offset + hdru + kszu, body_end));
    let body = slice_subrange(buf, offset, body_end);
    let crc = crc32(body);
    assert(body@ =~= s.take((hdru + kszu + vszu) as int));
    let expect = u32_le_bytes(crc);
    let stored = slice_subrange(buf, body_end, body_end + 4);
    assert(stored@ =~= s.subrange((hdru + kszu + vszu) as int, (hdru + kszu + vszu + 4) as int));
    if !(stored[0] == expect[0] && stored[1] == expect[1] && stored[2] == expect[2] && stored[3]
        == expect[3]) {
        assert(stored@ != spec_u32_le(crc32_of(s.take((hdru + kszu + vszu) as int))));
        return Err(Errors::CorruptRecord);
    }
    assert(stored@ =~= spec_u32_le(crc32_of(s.take((hdru + kszu + vszu) as int))));
    let record = LogRecord { key, value, rec_type: LogRecordType::from_u8(tag) };
    let size: usize = hdru + kszu + vszu + 4;
    proof {
        let parsed = spec_parse_record(s)->Some_0.0;
        assert(record@.key =~= parsed.key);
        assert(record@.value =~= parsed.value);
    }
    Ok(ReadLogRecord { record, size })
}

} // verus!
