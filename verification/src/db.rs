use vstd::prelude::*;
use vstd::slice::slice_to_vec;

use crate::data_file::DataFile;
use crate::errors::Errors;
use crate::index::BTree;
use crate::options::Options;
use crate::record::{
    lemma_codec_round_trip, lemma_parse_record_append, lemma_parse_record_bounds,
    lemma_parse_record_take, lemma_parse_record_window, spec_encode, spec_parse_record, LogRecord,
    LogRecordPos, LogRecordType, LogRecordView, ReadLogRecord,
};

verus! {

/// What one replayed record does to the key/value map: a normal record
/// binds its key, a tombstone removes it.
pub open spec fn apply_record(m: Map<Seq<u8>, Seq<u8>>, r: LogRecordView) -> Map<Seq<u8>, Seq<u8>> {
    if r.rec_type == LogRecordType::NORMAL {
        m.insert(r.key, r.value)
    } else {
        m.remove(r.key)
    }
}

/// Replay one file's records from `off` on, starting from map `m`:
/// the map after the file, or `None` if the bytes do not parse as a
/// clean run of records up to the end of the file.
pub open spec fn replay_from(s: Seq<u8>, off: int, m: Map<Seq<u8>, Seq<u8>>) -> Option<
    Map<Seq<u8>, Seq<u8>>,
>
    decreases s.len() - off,
{
    if off < 0 || off > s.len() {
        None
    } else if off == s.len() {
        Some(m)
    } else {
        match spec_parse_record(s.skip(off)) {
            None => None,
            Some((r, n)) => if n < 1 || off + n > s.len() {
                None
            } else {
                replay_from(s, off + n, apply_record(m, r))
            },
        }
    }
}

/// Replay a whole file set, oldest first, from the empty map.
pub open spec fn replay_files(files: Seq<Seq<u8>>) -> Option<Map<Seq<u8>, Seq<u8>>>
    decreases files.len(),
{
    if files.len() == 0 {
        Some(Map::empty())
    } else {
        match replay_files(files.drop_last()) {
            None => None,
            Some(m) => replay_from(files.last(), 0, m),
        }
    }
}

/// Appending one whole record to a file that replays cleanly replays
/// to the map with that record applied.
pub proof fn lemma_replay_append(
    s: Seq<u8>,
    off: int,
    m: Map<Seq<u8>, Seq<u8>>,
    enc: Seq<u8>,
    r: LogRecordView,
)
    requires
        0 <= off <= s.len(),
        replay_from(s, off, m) is Some,
        spec_parse_record(enc) == Some((r, enc.len() as nat)),
        enc.len() > 0,
    ensures
        replay_from(s + enc, off, m) == Some(apply_record(replay_from(s, off, m)->Some_0, r)),
    decreases s.len() - off,
{
    if off == s.len() {
        assert((s + enc).skip(off) =~= enc);
        assert(replay_from(s + enc, off + enc.len(), apply_record(m, r)) == Some(
            apply_record(m, r),
        ));
    } else {
        assert(spec_parse_record(s.skip(off)) is Some);
        let (r0, n0) = spec_parse_record(s.skip(off))->Some_0;
        lemma_parse_record_bounds(s.skip(off));
        assert((s + enc).skip(off) =~= s.skip(off) + enc);
        lemma_parse_record_append(s.skip(off), enc);
        lemma_replay_append(s, off + n0 as int, apply_record(m, r0), enc, r);
    }
}

/// Once a prefix of the file set fails to replay, the whole set does.
pub proof fn lemma_replay_files_none(files: Seq<Seq<u8>>, k: int)
    requires
        0 <= k <= files.len(),
        replay_files(files.take(k)) is None,
    ensures
        replay_files(files) is None,
    decreases files.len() - k,
{
    if k == files.len() {
        assert(files.take(k) =~= files);
    } else {
        assert(files.take(k + 1).drop_last() =~= files.take(k));
        assert(files.take(k + 1).last() == files[k]);
        lemma_replay_files_none(files, k + 1);
    }
}

/// Some sealed file carries the id.
spec fn older_has(files: Seq<DataFile>, fid: u32) -> bool {
    exists|i: int| 0 <= i < files.len() && (#[trigger] files[i]).id() == fid
}

/// The position of the sealed file carrying the id.
spec fn older_idx(files: Seq<DataFile>, fid: u32) -> int {
    choose|i: int| 0 <= i < files.len() && (#[trigger] files[i]).id() == fid
}

/// The bytes of the file the id names, active or sealed.
spec fn contents_of(files: Seq<DataFile>, active: DataFile, fid: u32) -> Seq<u8> {
    if fid == active.id() {
        active.contents()
    } else {
        files[older_idx(files, fid)].contents()
    }
}

/// The position points into an existing file, at a whole normal record
/// that lies entirely within the file's bytes.
spec fn pos_valid_in(files: Seq<DataFile>, active: DataFile, pos: LogRecordPos) -> bool {
    &&& (pos.file_id == active.id() || older_has(files, pos.file_id))
    &&& match spec_parse_record(contents_of(files, active, pos.file_id).skip(pos.offset as int)) {
        Some((r, n)) => r.rec_type == LogRecordType::NORMAL && pos.offset + n <= contents_of(
            files,
            active,
            pos.file_id,
        ).len(),
        None => false,
    }
}

/// The record stored at the position.
spec fn parsed_at(files: Seq<DataFile>, active: DataFile, pos: LogRecordPos) -> LogRecordView {
    spec_parse_record(contents_of(files, active, pos.file_id).skip(pos.offset as int))->Some_0.0
}

/// The sealed files' ids are strictly ascending and all below the
/// active file's id; every cursor sits at its file's tail.
spec fn files_wf_in(files: Seq<DataFile>, active: DataFile) -> bool {
    &&& active.inv()
    &&& forall|i: int| 0 <= i < files.len() ==> (#[trigger] files[i]).inv()
    &&& forall|i: int, j: int|
        #![trigger files[i], files[j]]
        0 <= i < j < files.len() ==> files[i].id() < files[j].id()
    &&& forall|i: int| 0 <= i < files.len() ==> (#[trigger] files[i]).id() < active.id()
}

/// Growing the active file at its tail keeps every valid position
/// valid, with the same record stored at it.
proof fn lemma_pos_preserved_append(
    files: Seq<DataFile>,
    a0: DataFile,
    a1: DataFile,
    added: Seq<u8>,
    pos: LogRecordPos,
)
    requires
        pos_valid_in(files, a0, pos),
        a1.id() == a0.id(),
        a1.contents() == a0.contents() + added,
    ensures
        pos_valid_in(files, a1, pos),
        parsed_at(files, a1, pos) == parsed_at(files, a0, pos),
{
    if pos.file_id == a0.id() {
        let c0 = a0.contents();
        assert(a1.contents().skip(pos.offset as int) =~= c0.skip(pos.offset as int) + added);
        lemma_parse_record_append(c0.skip(pos.offset as int), added);
    }
}

/// Sealing the active file and starting a fresh one keeps every valid
/// position valid, with the same record stored at it.
proof fn lemma_pos_preserved_rotate(
    files: Seq<DataFile>,
    a0: DataFile,
    a1: DataFile,
    pos: LogRecordPos,
)
    requires
        pos_valid_in(files, a0, pos),
        files_wf_in(files, a0),
        a1.id() > a0.id(),
        a1.contents() == Seq::<u8>::empty(),
    ensures
        pos_valid_in(files.push(a0), a1, pos),
        parsed_at(files.push(a0), a1, pos) == parsed_at(files, a0, pos),
{
    let files1 = files.push(a0);
    if pos.file_id == a0.id() {
        assert(files1[files.len() as int].id() == pos.file_id);
        assert(older_has(files1, pos.file_id));
        let i = older_idx(files1, pos.file_id);
        assert(0 <= i < files1.len() && files1[i].id() == pos.file_id);
        if i != files.len() as int {
            assert(files1[i] == files[i]);
            assert(files[i].id() < a0.id());
        }
        assert(contents_of(files1, a1, pos.file_id) == a0.contents());
    } else {
        assert(older_has(files, pos.file_id));
        let i0 = older_idx(files, pos.file_id);
        assert(files1[i0].id() == pos.file_id);
        assert(older_has(files1, pos.file_id));
        let i = older_idx(files1, pos.file_id);
        if i == files.len() as int {
            assert(files1[i].id() == a0.id());
            assert(files[i0].id() < a0.id());
        } else {
            assert(files1[i] == files[i]);
            if i != i0 {
                assert(files[i].id() == files[i0].id());
                if i < i0 {
                    assert(files[i].id() < files[i0].id());
                } else {
                    assert(files[i0].id() < files[i].id());
                }
            }
        }
        assert(contents_of(files1, a1, pos.file_id) == contents_of(files, a0, pos.file_id));
    }
}

/// The normal record a `put` of this key and value appends.
pub open spec fn put_record(key: Seq<u8>, value: Seq<u8>) -> LogRecordView {
    LogRecordView { key, value, rec_type: LogRecordType::NORMAL }
}

/// The tombstone a `delete` of this key appends: same key, empty value.
pub open spec fn tombstone_record(key: Seq<u8>) -> LogRecordView {
    LogRecordView { key, value: Seq::empty(), rec_type: LogRecordType::DELETED }
}

/// Validate the configured options: the directory path must be
/// non-empty and the file size threshold positive.
pub open spec fn spec_check_options(opts: Options) -> Option<Errors> {
    if opts.dir_path@.len() == 0 {
        Some(Errors::DirPathIsEmpty)
    } else if opts.data_file_size == 0 {
        Some(Errors::DataFileSizeTooSmall)
    } else {
        None
    }
}

/// Exec counterpart of `spec_check_options`.
pub fn check_options(opts: &Options) -> (r: Option<Errors>)
    ensures
        r == spec_check_options(*opts),
{
    if opts.dir_path.as_str().is_empty() {
        return Some(Errors::DirPathIsEmpty);
    }
    if opts.data_file_size == 0 {
        return Some(Errors::DataFileSizeTooSmall);
    }
    None
}

/// The storage engine: one active append-only file, the sealed files
/// before it, and the in-memory index from each live key to the
/// position of its newest record.
pub struct Engine {
    options: Options,
    active_file: DataFile,
    older_files: Vec<DataFile>,
    index: BTree,
    file_ids: Vec<u32>,
}

impl Engine {
    /// The configuration the engine was opened with.
    pub closed spec fn opts(self) -> Options {
        self.options
    }

    /// The configured size threshold.
    pub closed spec fn data_file_size(self) -> u64 {
        self.options.data_file_size
    }

    /// The active file's id.
    pub closed spec fn active_id(self) -> u32 {
        self.active_file.id()
    }

    /// The active file's bytes.
    pub closed spec fn active_contents(self) -> Seq<u8> {
        self.active_file.contents()
    }

    /// The active file's write cursor.
    pub closed spec fn active_off(self) -> u64 {
        self.active_file.off()
    }

    /// How many files are sealed.
    pub closed spec fn sealed_count(self) -> int {
        self.older_files@.len() as int
    }

    /// The id of the `i`-th sealed file, oldest first.
    pub closed spec fn sealed_id(self, i: int) -> u32 {
        self.older_files@[i].id()
    }

    /// The bytes of the `i`-th sealed file, oldest first.
    pub closed spec fn sealed_contents(self, i: int) -> Seq<u8> {
        self.older_files@[i].contents()
    }

    /// All files' bytes, oldest first, the active file last.
    pub closed spec fn segment_data(self) -> Seq<Seq<u8>> {
        self.older_files@.map_values(|f: DataFile| f.contents()).push(
            self.active_file.contents(),
        )
    }

    /// The file holds one single whole record.
    pub closed spec fn is_single_record(self, c: Seq<u8>) -> bool {
        match spec_parse_record(c) {
            Some((r, n)) => n == c.len(),
            None => false,
        }
    }

    /// Every file fits the configured threshold unless it holds exactly
    /// one (oversize) record; rotation keeps this across every put.
    pub open spec fn size_bounded(self) -> bool {
        &&& forall|i: int|
            0 <= i < self.sealed_count() ==> (#[trigger] self.sealed_contents(i)).len()
                <= self.data_file_size() || self.is_single_record(self.sealed_contents(i))
        &&& (self.active_contents().len() <= self.data_file_size() || self.is_single_record(
            self.active_contents(),
        ))
    }

    /// The live key/value map: what `get` observes.
    pub closed spec fn kv(self) -> Map<Seq<u8>, Seq<u8>> {
        Map::new(
            |k: Seq<u8>| self.index.pos_map().contains_key(k),
            |k: Seq<u8>|
                parsed_at(self.older_files@, self.active_file, self.index.pos_map()[k]).value,
        )
    }

    /// Well-formedness: the file set is structurally sound, the index
    /// is an exact map, every indexed position stores a whole normal
    /// record carrying its key, and replaying all files from the empty
    /// map rebuilds exactly the live key/value map.
    pub closed spec fn inv(self) -> bool {
        &&& self.options.data_file_size >= 1
        &&& files_wf_in(self.older_files@, self.active_file)
        &&& self.index.wf()
        &&& forall|k: Seq<u8>| #[trigger]
            self.index.pos_map().contains_key(k) ==> pos_valid_in(
                self.older_files@,
                self.active_file,
                self.index.pos_map()[k],
            ) && parsed_at(self.older_files@, self.active_file, self.index.pos_map()[k]).key == k
        &&& replay_files(self.segment_data()) == Some(self.kv())
    }

    /// Seal the active file and open the next one; every stored byte
    /// and every valid position survives, and replay is unchanged.
    fn rotate_active(&mut self)
        requires
            files_wf_in(old(self).older_files@, old(self).active_file),
            old(self).active_id() < u32::MAX,
        ensures
            final(self).options == old(self).options,
            final(self).index == old(self).index,
            final(self).file_ids == old(self).file_ids,
            files_wf_in(final(self).older_files@, final(self).active_file),
            final(self).active_id() == old(self).active_id() + 1,
            final(self).active_contents() == Seq::<u8>::empty(),
            final(self).older_files@ == old(self).older_files@.push(old(self).active_file),
            forall|q: LogRecordPos|
                pos_valid_in(old(self).older_files@, old(self).active_file, q)
                    ==> #[trigger] pos_valid_in(
                    final(self).older_files@,
                    final(self).active_file,
                    q,
                ) && parsed_at(final(self).older_files@, final(self).active_file, q) == parsed_at(
                    old(self).older_files@,
                    old(self).active_file,
                    q,
                ),
            replay_files(final(self).segment_data()) == replay_files(old(self).segment_data()),
    {
        let ghost pre = *self;
        let _ = self.active_file.sync();
        let cur_id = self.active_file.get_file_id();
        let mut sealed = DataFile::new(cur_id + 1);
        core::mem::swap(&mut self.active_file, &mut sealed);
        self.older_files.push(sealed);
        proof {
            assert(self.older_files@ =~= pre.older_files@.push(pre.active_file));
            assert forall|q: LogRecordPos|
                pos_valid_in(pre.older_files@, pre.active_file, q) implies #[trigger]
                pos_valid_in(self.older_files@, self.active_file, q) && parsed_at(
                self.older_files@,
                self.active_file,
                q,
            ) == parsed_at(pre.older_files@, pre.active_file, q) by {
                lemma_pos_preserved_rotate(pre.older_files@, pre.active_file, self.active_file, q);
            }
            assert(self.segment_data().drop_last() =~= pre.segment_data());
            assert(self.segment_data().last() == Seq::<u8>::empty());
        }
    }

    /// Encode the record, append it to the active file — rotating first
    /// when it would overflow the threshold — and return where it
    /// landed. The index is untouched; appends never fail in memory.
    #[verifier::rlimit(100)]
    fn append_log_record(&mut self, record: &LogRecord) -> (r: Result<LogRecordPos, Errors>)
        requires
            files_wf_in(old(self).older_files@, old(self).active_file),
            old(self).options.data_file_size >= 1,
            old(self).active_id() < u32::MAX,
        ensures
            final(self).options == old(self).options,
            final(self).index == old(self).index,
            final(self).file_ids == old(self).file_ids,
            files_wf_in(final(self).older_files@, final(self).active_file),
            old(self).active_id() <= final(self).active_id() <= old(self).active_id() + 1,
            final(self).sealed_count() >= old(self).sealed_count(),
            forall|i: int|
                0 <= i < old(self).sealed_count() ==> final(self).sealed_id(i) == old(self).sealed_id(i) && final(self).sealed_contents(i) == old(self).sealed_contents(i),
            old(self).size_bounded() ==> final(self).size_bounded(),
            forall|q: LogRecordPos|
                pos_valid_in(old(self).older_files@, old(self).active_file, q)
                    ==> #[trigger] pos_valid_in(
                    final(self).older_files@,
                    final(self).active_file,
                    q,
                ) && parsed_at(final(self).older_files@, final(self).active_file, q) == parsed_at(
                    old(self).older_files@,
                    old(self).active_file,
                    q,
                ),
            r matches Ok(pos) && pos.file_id == final(self).active_id() && final(self).active_contents().skip(pos.offset as int) == spec_encode(record@) && pos.offset
                + spec_encode(record@).len() == final(self).active_contents().len(),
            replay_files(old(self).segment_data()) matches Some(m) ==> replay_files(
                final(self).segment_data(),
            ) == Some(apply_record(m, record@)),
            // Rotation happens exactly when the record would overflow
            // the threshold; otherwise the record lands at the tail.
            old(self).active_off() + spec_encode(record@).len() <= old(self).data_file_size()
                ==> final(self).active_id() == old(self).active_id() && final(self).active_contents() == old(self).active_contents() + spec_encode(record@) && final(self).older_files@ == old(self).older_files@,
            old(self).active_off() + spec_encode(record@).len() > old(self).data_file_size()
                ==> final(self).active_id() == old(self).active_id() + 1 && final(self).active_contents() == spec_encode(record@) && final(self).older_files@ == old(self).older_files@.push(old(self).active_file),
    {
        let enc = record.encode();
        let record_len: u64 = enc.len() as u64;
        let size_limit = self.options.data_file_size;
        let woff = self.active_file.get_write_off();
        let ghost pre = *self;
        let ghost rotated = woff > size_limit || record_len > size_limit - woff;
        proof {
            assert(rotated == (pre.active_off() + spec_encode(record@).len()
                > pre.data_file_size()));
        }
        if woff > size_limit || record_len > size_limit - woff {
            self.rotate_active();
        }
        let ghost mid = *self;
        proof {
            if !rotated {
                assert(mid == pre);
            }
        }
        let write_off = self.active_file.get_write_off();
        proof {
            assert(mid.active_file.off() + enc@.len() <= u64::MAX) by {
                if mid.active_file.id() == pre.active_file.id() {
                    assert(mid.active_file.off() + record_len <= size_limit);
                } else {
                    assert(mid.active_file.off() == 0);
                }
            }
        }
        let _ = self.active_file.write(enc.as_slice());
        if self.options.sync_writes {
            let _ = self.active_file.sync();
        }
        let pos = LogRecordPos { file_id: self.active_file.get_file_id(), offset: write_off };
        proof {
            lemma_codec_round_trip(record@, Seq::<u8>::empty());
            assert(spec_encode(record@) + Seq::<u8>::empty() =~= spec_encode(record@));
            lemma_append_step(mid, *self, enc@, record@);
            assert(self.active_contents().skip(pos.offset as int) =~= enc@);
            if rotated {
                assert(self.active_contents() =~= spec_encode(record@));
            }
            assert forall|q: LogRecordPos|
                pos_valid_in(pre.older_files@, pre.active_file, q) implies #[trigger]
                pos_valid_in(self.older_files@, self.active_file, q) && parsed_at(
                self.older_files@,
                self.active_file,
                q,
            ) == parsed_at(pre.older_files@, pre.active_file, q) by {
                if rotated {
                    assert(pos_valid_in(mid.older_files@, mid.active_file, q));
                } else {
                    assert(mid == pre);
                }
                assert(pos_valid_in(mid.older_files@, mid.active_file, q) && parsed_at(
                    mid.older_files@,
                    mid.active_file,
                    q,
                ) == parsed_at(pre.older_files@, pre.active_file, q));
                assert(pos_valid_in(self.older_files@, self.active_file, q));
            }
            if pre.size_bounded() {
                lemma_append_size_bound(pre, mid, *self, enc@, record@);
            }
        }
        Ok(pos)
    }

    /// Read the record an index position points at; with a valid
    /// position the read cannot fail.
    fn read_pos(&self, pos: LogRecordPos) -> (r: ReadLogRecord)
        requires
            files_wf_in(self.older_files@, self.active_file),
            pos_valid_in(self.older_files@, self.active_file, pos),
        ensures
            r.record@ == parsed_at(self.older_files@, self.active_file, pos),
    {
        let ghost files = self.older_files@;
        if pos.file_id == self.active_file.get_file_id() {
            match self.active_file.read_log_record(pos.offset) {
                Ok(rr) => rr,
                Err(_) => {
                    proof {
                        assert(false);
                    }
                    ReadLogRecord {
                        record: LogRecord {
                            key: Vec::new(),
                            value: Vec::new(),
                            rec_type: LogRecordType::NORMAL,
                        },
                        size: 0,
                    }
                },
            }
        } else {
            let mut i: usize = 0;
            while i < self.older_files.len()
                invariant
                    files == self.older_files@,
                    files_wf_in(self.older_files@, self.active_file),
                    pos_valid_in(self.older_files@, self.active_file, pos),
                    pos.file_id != self.active_file.id(),
                    0 <= i <= files.len(),
                    forall|j: int| 0 <= j < i ==> (#[trigger] files[j]).id() != pos.file_id,
                decreases files.len() - i,
            {
                if self.older_files[i].get_file_id() == pos.file_id {
                    proof {
                        let w = older_idx(files, pos.file_id);
                        assert(older_has(files, pos.file_id));
                        if w != i as int {
                            if w < i as int {
                                assert(files[w].id() < files[i as int].id());
                            } else {
                                assert(files[i as int].id() < files[w].id());
                            }
                        }
                        assert(contents_of(files, self.active_file, pos.file_id) == files[
                            i as int
                        ].contents());
                    }
                    match self.older_files[i].read_log_record(pos.offset) {
                        Ok(rr) => {
                            return rr;
                        },
                        Err(_) => {
                            proof {
                                assert(false);
                            }
                            return ReadLogRecord {
                                record: LogRecord {
                                    key: Vec::new(),
                                    value: Vec::new(),
                                    rec_type: LogRecordType::NORMAL,
                                },
                                size: 0,
                            };
                        },
                    }
                }
                i = i + 1;
            }
            proof {
                assert(older_has(files, pos.file_id));
                assert(false);
            }
            ReadLogRecord {
                record: LogRecord {
                    key: Vec::new(),
                    value: Vec::new(),
                    rec_type: LogRecordType::NORMAL,
                },
                size: 0,
            }
        }
    }

    /// Look the key up and return the value of its newest record: the
    /// image of the key in the live key/value map. Empty keys are
    /// rejected; absent keys are a miss.
    pub fn get(&self, key: Vec<u8>) -> (r: Result<Vec<u8>, Errors>)
        requires
            self.inv(),
        ensures
            match r {
                Ok(v) => key@.len() > 0 && self.kv().contains_key(key@) && v@ == self.kv()[key@],
                Err(Errors::KeyIsEmpty) => key@.len() == 0,
                Err(Errors::KeyNotFound) => key@.len() > 0 && !self.kv().contains_key(key@),
                Err(_) => false,
            },
    {
        if key.is_empty() {
            return Err(Errors::KeyIsEmpty);
        }
        let ghost k = key@;
        let pos = match self.index.get(key) {
            Some(p) => p,
            None => {
                return Err(Errors::KeyNotFound);
            },
        };
        let rr = self.read_pos(pos);
        if rr.record.rec_type == LogRecordType::DELETED {
            // A tombstone behind an index entry cannot happen under the
            // engine invariant; mirror it as a miss defensively.
            proof {
                assert(false);
            }
            return Err(Errors::KeyNotFound);
        }
        Ok(rr.record.value)
    }

    /// Store `key` → `value`: append a normal record and publish its
    /// position. An empty key is rejected with no state change; any
    /// other key is bound to the new value, and sealed files are never
    /// touched.
    #[verifier::rlimit(100)]
    pub fn put(&mut self, key: Vec<u8>, value: Vec<u8>) -> (r: Result<(), Errors>)
        requires
            old(self).inv(),
            old(self).active_id() < u32::MAX,
        ensures
            final(self).inv(),
            final(self).opts() == old(self).opts(),
            old(self).active_id() <= final(self).active_id() <= old(self).active_id() + 1,
            (r == Err::<(), Errors>(Errors::KeyIsEmpty)) <==> key@.len() == 0,
            key@.len() == 0 ==> *final(self) == *old(self),
            key@.len() > 0 ==> r is Ok && final(self).kv() == old(self).kv().insert(
                key@,
                value@,
            ),
            old(self).size_bounded() ==> final(self).size_bounded(),
            final(self).sealed_count() >= old(self).sealed_count(),
            forall|i: int|
                0 <= i < old(self).sealed_count() ==> final(self).sealed_id(i) == old(self).sealed_id(i) && final(self).sealed_contents(i) == old(self).sealed_contents(i),
            // Rotation happens exactly when the new record would
            // overflow the threshold; otherwise it lands at the tail of
            // the unchanged active file.
            key@.len() > 0 && old(self).active_contents().len() + spec_encode(
                put_record(key@, value@),
            ).len() <= old(self).data_file_size() ==> final(self).active_id() == old(self).active_id() && final(self).active_contents() == old(self).active_contents()
                + spec_encode(put_record(key@, value@)) && final(self).sealed_count() == old(self).sealed_count(),
            key@.len() > 0 && old(self).active_contents().len() + spec_encode(
                put_record(key@, value@),
            ).len() > old(self).data_file_size() ==> final(self).active_id() == old(self).active_id() + 1 && final(self).active_contents() == spec_encode(
                put_record(key@, value@),
            ) && final(self).sealed_count() == old(self).sealed_count() + 1 && final(self).sealed_id(old(self).sealed_count()) == old(self).active_id() && final(self).sealed_contents(old(self).sealed_count()) == old(self).active_contents(),
    {
        if key.is_empty() {
            return Err(Errors::KeyIsEmpty);
        }
        let record = LogRecord {
            key: slice_to_vec(key.as_slice()),
            value,
            rec_type: LogRecordType::NORMAL,
        };
        proof {
            assert(record@ == put_record(key@, value@));
        }
        let ghost pre = *self;
        let pos = match self.append_log_record(&record) {
            Ok(p) => p,
            Err(e) => {
                proof {
                    assert(false);
                }
                return Err(e);
            },
        };
        let ghost mid = *self;
        let _ = self.index.put(key, pos);
        proof {
            lemma_codec_round_trip(record@, Seq::<u8>::empty());
            assert(spec_encode(record@) + Seq::<u8>::empty() =~= spec_encode(record@));
            assert(pos_valid_in(self.older_files@, self.active_file, pos) && parsed_at(
                self.older_files@,
                self.active_file,
                pos,
            ) == record@) by {
                assert(contents_of(self.older_files@, self.active_file, pos.file_id)
                    == self.active_file.contents());
            }
            lemma_publish_insert(pre, *self, key@, value@, pos);
            if pre.size_bounded() {
                assert(mid.size_bounded());
                assert(self.size_bounded()) by {
                    assert(forall|i: int|
                        0 <= i < self.sealed_count() ==> #[trigger] self.sealed_contents(i)
                            == mid.sealed_contents(i));
                }
            }
        }
        Ok(())
    }

    /// Remove `key`: if it is live, append a tombstone and drop it from
    /// the index; if it is absent, succeed without any write. An empty
    /// key is rejected with no state change.
    #[verifier::rlimit(100)]
    pub fn delete(&mut self, key: Vec<u8>) -> (r: Result<(), Errors>)
        requires
            old(self).inv(),
            old(self).active_id() < u32::MAX,
        ensures
            final(self).inv(),
            final(self).opts() == old(self).opts(),
            old(self).active_id() <= final(self).active_id() <= old(self).active_id() + 1,
            (r == Err::<(), Errors>(Errors::KeyIsEmpty)) <==> key@.len() == 0,
            key@.len() == 0 ==> *final(self) == *old(self),
            key@.len() > 0 ==> r is Ok && final(self).kv() == old(self).kv().remove(key@),
            old(self).size_bounded() ==> final(self).size_bounded(),
            final(self).sealed_count() >= old(self).sealed_count(),
            forall|i: int|
                0 <= i < old(self).sealed_count() ==> final(self).sealed_id(i) == old(self).sealed_id(i) && final(self).sealed_contents(i) == old(self).sealed_contents(i),
            // The tombstone shortcut: an absent key needs no write at
            // all, nothing changes.
            key@.len() > 0 && !old(self).kv().contains_key(key@) ==> *final(self) == *old(self),
            // For a live key, rotation happens exactly when the
            // tombstone would overflow the threshold; otherwise it
            // lands at the tail of the unchanged active file.
            key@.len() > 0 && old(self).kv().contains_key(key@) && old(self).active_contents().len() + spec_encode(tombstone_record(key@)).len() <= old(self).data_file_size() ==> final(self).active_id() == old(self).active_id() && final(self).active_contents() == old(self).active_contents() + spec_encode(
                tombstone_record(key@),
            ) && final(self).sealed_count() == old(self).sealed_count(),
            key@.len() > 0 && old(self).kv().contains_key(key@) && old(self).active_contents().len() + spec_encode(tombstone_record(key@)).len() > old(self).data_file_size() ==> final(self).active_id() == old(self).active_id() + 1 && final(self).active_contents() == spec_encode(tombstone_record(key@)) && final(self).sealed_count() == old(self).sealed_count() + 1 && final(self).sealed_id(
                old(self).sealed_count(),
            ) == old(self).active_id() && final(self).sealed_contents(old(self).sealed_count())
                == old(self).active_contents(),
    {
        if key.is_empty() {
            return Err(Errors::KeyIsEmpty);
        }
        // A key the index does not hold needs no tombstone.
        let probe = self.index.get(slice_to_vec(key.as_slice()));
        if probe.is_none() {
            proof {
                assert(self.kv() =~= self.kv().remove(key@));
            }
            return Ok(());
        }
        let record = LogRecord {
            key: slice_to_vec(key.as_slice()),
            value: Vec::new(),
            rec_type: LogRecordType::DELETED,
        };
        proof {
            assert(record@.value =~= Seq::<u8>::empty());
            assert(record@ == tombstone_record(key@));
        }
        let ghost pre = *self;
        let _ = match self.append_log_record(&record) {
            Ok(p) => p,
            Err(e) => {
                proof {
                    assert(false);
                }
                return Err(e);
            },
        };
        let ghost mid = *self;
        let _ = self.index.delete(key);
        proof {
            assert(record@.value =~= Seq::<u8>::empty());
            lemma_publish_remove(pre, *self, key@);
            if pre.size_bounded() {
                assert(mid.size_bounded());
                assert(self.size_bounded()) by {
                    assert(forall|i: int|
                        0 <= i < self.sealed_count() ==> #[trigger] self.sealed_contents(i)
                            == mid.sealed_contents(i));
                }
            }
        }
        Ok(())
    }

    /// The active file's id.
    pub fn active_file_id(&self) -> (r: u32)
        ensures
            r == self.active_id(),
    {
        self.active_file.get_file_id()
    }

    /// The active file's write cursor: the byte count of everything
    /// appended to it so far.
    pub fn active_write_off(&self) -> (r: u64)
        ensures
            self.inv() ==> r as int == self.active_contents().len(),
    {
        self.active_file.get_write_off()
    }

    /// A snapshot of every file: its id and its bytes, oldest first,
    /// the active file last, ids strictly ascending. Reopening an
    /// engine over this snapshot rebuilds the same live map.
    pub fn segments(&self) -> (r: Vec<(u32, Vec<u8>)>)
        requires
            self.inv(),
        ensures
            r@.len() == self.sealed_count() + 1,
            forall|i: int|
                0 <= i < self.sealed_count() ==> (#[trigger] r@[i]).0 == self.sealed_id(i)
                    && r@[i].1@ == self.sealed_contents(i),
            r@[r@.len() - 1].0 == self.active_id(),
            r@[r@.len() - 1].1@ == self.active_contents(),
            forall|i: int, j: int|
                #![trigger r@[i], r@[j]]
                0 <= i < j < r@.len() ==> r@[i].0 < r@[j].0,
            seg_datas(r@) == self.segment_data(),
    {
        let mut r: Vec<(u32, Vec<u8>)> = Vec::new();
        let mut i: usize = 0;
        while i < self.older_files.len()
            invariant
                self.inv(),
                0 <= i <= self.older_files@.len(),
                r@.len() == i,
                forall|j: int|
                    0 <= j < i ==> (#[trigger] r@[j]).0 == self.older_files@[j].id() && r@[j].1@
                        == self.older_files@[j].contents(),
            decreases self.older_files@.len() - i,
        {
            let f = &self.older_files[i];
            r.push((f.get_file_id(), f.contents_vec()));
            i = i + 1;
        }
        r.push((self.active_file.get_file_id(), self.active_file.contents_vec()));
        proof {
            assert(seg_datas(r@) =~= self.segment_data());
        }
        r
    }

    /// Open an engine over recovered segments: the id and the bytes of
    /// each data file found on disk, in ascending id order. The index
    /// is rebuilt by replaying every record, oldest file first. A torn
    /// record at the tail of the newest file is cut off when
    /// `sync_writes` is off and refused otherwise; corruption anywhere
    /// else, or a bad option, refuses to open.
    #[verifier::rlimit(100)]
    pub fn open_from(opts: Options, segments: Vec<(u32, Vec<u8>)>) -> (r: Result<Engine, Errors>)
        requires
            forall|i: int, j: int|
                #![trigger segments@[i], segments@[j]]
                0 <= i < j < segments@.len() ==> segments@[i].0 < segments@[j].0,
        ensures
            match r {
                Ok(e) => e.inv() && e.opts() == opts && spec_check_options(opts) is None && (
                replay_files(seg_datas(segments@)) matches Some(m) ==> e.kv() == m && (
                segments@.len() > 0 ==> e.segment_data() == seg_datas(segments@))),
                Err(e) => spec_check_options(opts) == Some(e) || (e == Errors::CorruptRecord
                    && replay_files(seg_datas(segments@)) is None),
            },
            spec_check_options(opts) is None && replay_files(seg_datas(segments@)) is Some ==> r
                is Ok,
            segments@.len() == 0 ==> (r matches Ok(e) ==> e.sealed_count() == 0
                && e.active_contents() == Seq::<u8>::empty() && e.active_id() == 0),
            // File ids and sealed bytes are those of the input; the
            // active file keeps the newest file's bytes, cut at the
            // first byte run that is no whole record -- and cut only
            // under the torn-tail policy, with `sync_writes` off.
            segments@.len() > 0 ==> (r matches Ok(e) ==> e.active_id() == segments@[segments@.len()
                - 1].0 && e.sealed_count() == segments@.len() - 1 && (forall|i: int|
                0 <= i < segments@.len() - 1 ==> e.sealed_id(i) == (#[trigger] segments@[i]).0
                    && e.sealed_contents(i) == segments@[i].1@) && e.active_contents()
                == segments@[segments@.len() - 1].1@.take(e.active_contents().len() as int) && (
            e.active_contents().len() < segments@[segments@.len() - 1].1@.len()
                ==> !opts.sync_writes && spec_parse_record(
                segments@[segments@.len() - 1].1@.skip(e.active_contents().len() as int),
            ) is None)),
            // With `sync_writes` off, only corruption in a sealed file
            // refuses to open: a torn tail of the newest file is cut.
            spec_check_options(opts) is None && !opts.sync_writes && (segments@.len() == 0
                || replay_files(seg_datas(segments@).drop_last()) is Some) ==> r is Ok,
    {
        if let Some(e) = check_options(&opts) {
            return Err(e);
        }
        let n = segments.len();
        let mut files: Vec<DataFile> = Vec::new();
        let mut file_ids: Vec<u32> = Vec::new();
        let mut idx: usize = 0;
        while idx < n
            invariant
                n == segments@.len(),
                forall|i: int, j: int|
                    #![trigger segments@[i], segments@[j]]
                    0 <= i < j < segments@.len() ==> segments@[i].0 < segments@[j].0,
                0 <= idx <= n,
                files@.len() == idx,
                file_ids@.len() == idx,
                forall|i: int|
                    0 <= i < idx ==> (#[trigger] files@[i]).id() == segments@[i].0
                        && files@[i].contents() == segments@[i].1@ && files@[i].inv(),
                forall|i: int| 0 <= i < idx ==> (#[trigger] file_ids@[i]) == segments@[i].0,
            decreases n - idx,
        {
            let id = segments[idx].0;
            let data = slice_to_vec(segments[idx].1.as_slice());
            files.push(DataFile::open_with(id, data));
            file_ids.push(id);
            idx = idx + 1;
        }
        let ghost datas = seg_datas(segments@);
        if files.len() == 0 {
            let engine = Engine {
                options: opts,
                active_file: DataFile::new(0),
                older_files: files,
                index: BTree::new(),
                file_ids,
            };
            proof {
                let ghost sd = engine.segment_data();
                assert(sd.len() == 1);
                assert(sd.drop_last() =~= Seq::<Seq<u8>>::empty());
                assert(replay_files(sd.drop_last()) == Some(Map::<Seq<u8>, Seq<u8>>::empty()));
                assert(sd.last() =~= Seq::<u8>::empty());
                assert(replay_from(sd.last(), 0, Map::<Seq<u8>, Seq<u8>>::empty()) == Some(
                    Map::<Seq<u8>, Seq<u8>>::empty(),
                ));
                assert(replay_files(sd) == Some(Map::<Seq<u8>, Seq<u8>>::empty()));
                assert(engine.kv() =~= Map::<Seq<u8>, Seq<u8>>::empty());
                assert(datas =~= Seq::<Seq<u8>>::empty());
                assert(replay_files(datas) == Some(Map::<Seq<u8>, Seq<u8>>::empty()));
            }
            return Ok(engine);
        }
        let mut active = match files.pop() {
            Some(f) => f,
            None => {
                proof {
                    assert(false);
                }
                DataFile::new(0)
            },
        };
        let older = files;
        let mut index = BTree::new();
        let ghost mut gm: Map<Seq<u8>, Seq<u8>> = Map::empty();
        let mut fi: usize = 0;
        while fi < older.len()
            invariant
                n == segments@.len(),
                n >= 1,
                forall|i: int, j: int|
                    #![trigger segments@[i], segments@[j]]
                    0 <= i < j < segments@.len() ==> segments@[i].0 < segments@[j].0,
                older@.len() == n - 1,
                forall|i: int|
                    0 <= i < n - 1 ==> (#[trigger] older@[i]).id() == segments@[i].0
                        && older@[i].contents() == segments@[i].1@ && older@[i].inv(),
                active.id() == segments@[n - 1].0,
                active.contents() == segments@[n - 1].1@,
                active.inv(),
                datas == seg_datas(segments@),
                0 <= fi <= older@.len(),
                index.wf(),
                replay_files(datas.take(fi as int)) == Some(gm),
                replay_entries_ok(index, older@, active, gm),
                forall|k: Seq<u8>| #[trigger]
                    index.pos_map().contains_key(k) ==> (index.pos_map()[k].file_id as int) < (
                    segments@[fi as int].0 as int),
            decreases older@.len() - fi,
        {
            proof {
                lemma_files_wf_of_segments(segments@, older@, active);
                lemma_contents_at(older@, active, fi as int);
            }
            let ghost m_start = gm;
            let outcome = replay_file(
                &older[fi],
                &mut index,
                Ghost(older@),
                Ghost(active),
                Ghost(gm),
            );
            match outcome {
                Ok((end_off, gm2)) => {
                    proof {
                        gm = gm2@;
                        assert(datas.take(fi as int + 1).drop_last() =~= datas.take(fi as int));
                        assert(datas.take(fi as int + 1).last() == older@[fi as int].contents());
                        assert(replay_files(datas.take(fi as int + 1)) == Some(gm));
                    }
                },
                Err(_) => {
                    proof {
                        assert(datas.take(fi as int + 1).drop_last() =~= datas.take(fi as int));
                        assert(datas.take(fi as int + 1).last() == older@[fi as int].contents());
                        assert(replay_files(datas.take(fi as int + 1)) is None);
                        lemma_replay_files_none(datas, fi as int + 1);
                        // The sealed files alone already fail to replay.
                        assert(datas.take(n as int - 1).take(fi as int + 1) =~= datas.take(
                            fi as int + 1,
                        ));
                        lemma_replay_files_none(datas.take(n as int - 1), fi as int + 1);
                        assert(datas.drop_last() =~= datas.take(n as int - 1));
                    }
                    return Err(Errors::CorruptRecord);
                },
            }
            fi = fi + 1;
        }
        // Replay the newest file, which stays active.
        proof {
            lemma_files_wf_of_segments(segments@, older@, active);
        }
        let ghost m_start = gm;
        let outcome = replay_file(&active, &mut index, Ghost(older@), Ghost(active), Ghost(gm));
        let mut truncated = false;
        let ghost pre_active = active;
        match outcome {
            Ok((end_off, gm2)) => {
                proof {
                    gm = gm2@;
                }
            },
            Err((last_good, gm2)) => {
                proof {
                    assert(replay_files(datas) is None) by {
                        assert(datas.take(n as int).drop_last() =~= datas.take(n as int - 1));
                        assert(datas.take(n as int).last() == active.contents());
                        assert(replay_files(datas.take(n as int)) is None);
                        assert(datas.take(n as int) =~= datas);
                    }
                }
                if opts.sync_writes {
                    return Err(Errors::CorruptRecord);
                }
                proof {
                    gm = gm2@;
                }
                active.truncate_to(last_good);
                truncated = true;
                proof {
                    assert(active.contents() =~= pre_active.contents().take(
                        active.contents().len() as int,
                    ));
                    assert(active.contents().len() < pre_active.contents().len());
                    assert(spec_parse_record(
                        pre_active.contents().skip(active.contents().len() as int),
                    ) is None);
                    assert(replay_entries_ok(index, older@, active, gm)) by {
                        assert forall|k: Seq<u8>| #[trigger]
                            index.pos_map().contains_key(k) implies pos_valid_in(
                            older@,
                            active,
                            index.pos_map()[k],
                        ) && parsed_at(older@, active, index.pos_map()[k]).key == k
                            && gm.contains_key(k) && parsed_at(
                            older@,
                            active,
                            index.pos_map()[k],
                        ).value == gm[k] by {
                            lemma_pos_preserved_truncate(
                                older@,
                                pre_active,
                                active,
                                last_good as int,
                                index.pos_map()[k],
                            );
                        }
                    }
                }
            },
        }
        let engine = Engine {
            options: opts,
            active_file: active,
            older_files: older,
            index,
            file_ids,
        };
        proof {
            lemma_files_wf_of_segments(segments@, older@, engine.active_file);
            assert(engine.segment_data().drop_last() =~= datas.take(n as int - 1));
            assert(replay_from(engine.active_file.contents(), 0, m_start) == Some(gm));
            lemma_assemble_engine(engine, gm, m_start);
            if !truncated {
                assert(engine.segment_data() =~= datas);
                assert(engine.active_file.contents() =~= pre_active.contents().take(
                    engine.active_file.contents().len() as int,
                ));
            }
            if replay_files(datas) is Some {
                assert(!truncated);
                assert(replay_files(datas) == replay_files(engine.segment_data()));
            }
        }
        Ok(engine)
    }

    /// Open an engine over an empty directory: one empty active file
    /// with id 0 and an empty index.
    pub fn open(opts: Options) -> (r: Result<Engine, Errors>)
        ensures
            match r {
                Ok(e) => e.inv() && e.opts() == opts && spec_check_options(opts) is None && e.kv()
                    == Map::<Seq<u8>, Seq<u8>>::empty() && e.size_bounded() && e.active_id() == 0
                    && e.sealed_count() == 0 && e.active_contents() == Seq::<u8>::empty(),
                Err(e) => spec_check_options(opts) == Some(e),
            },
            spec_check_options(opts) is None ==> r is Ok,
    {
        let r = Self::open_from(opts, Vec::new());
        proof {
            assert(seg_datas(Seq::<(u32, Vec<u8>)>::empty()) =~= Seq::<Seq<u8>>::empty());
            assert(replay_files(Seq::<Seq<u8>>::empty()) == Some(Map::<Seq<u8>, Seq<u8>>::empty()));
        }
        match r {
            Ok(e) => {
                proof {
                    assert(e.size_bounded());
                }
                Ok(e)
            },
            Err(e) => Err(e),
        }
    }
}

/// The byte strings of a segment list, in order.
pub open spec fn seg_datas(s: Seq<(u32, Vec<u8>)>) -> Seq<Seq<u8>> {
    s.map_values(|p: (u32, Vec<u8>)| p.1@)
}

/// Where the record a position points at ends.
spec fn parsed_end(files: Seq<DataFile>, active: DataFile, pos: LogRecordPos) -> int {
    pos.offset + spec_parse_record(
        contents_of(files, active, pos.file_id).skip(pos.offset as int),
    )->Some_0.1
}

/// Replay bookkeeping: the index and the replayed map bind exactly the
/// same keys, and every index entry points at a whole normal record
/// carrying its key and the map's value for it.
spec fn replay_entries_ok(
    index: BTree,
    files: Seq<DataFile>,
    active: DataFile,
    gm: Map<Seq<u8>, Seq<u8>>,
) -> bool {
    &&& forall|k: Seq<u8>| #[trigger]
        index.pos_map().contains_key(k) ==> pos_valid_in(files, active, index.pos_map()[k])
            && parsed_at(files, active, index.pos_map()[k]).key == k && gm.contains_key(k)
            && parsed_at(files, active, index.pos_map()[k]).value == gm[k]
    &&& forall|k: Seq<u8>| #[trigger] gm.contains_key(k) ==> index.pos_map().contains_key(k)
}

/// In a well-formed file set, the i-th sealed file is the one its id
/// resolves to.
proof fn lemma_contents_at(files: Seq<DataFile>, active: DataFile, i: int)
    requires
        files_wf_in(files, active),
        0 <= i < files.len(),
    ensures
        older_has(files, files[i].id()),
        contents_of(files, active, files[i].id()) == files[i].contents(),
{
    assert(older_has(files, files[i].id()));
    let w = older_idx(files, files[i].id());
    if w != i {
        if w < i {
            assert(files[w].id() < files[i].id());
        } else {
            assert(files[i].id() < files[w].id());
        }
    }
    assert(files[i].id() != active.id());
}

/// Segments with strictly ascending ids open into a well-formed file
/// set: the sealed files in order and the newest file active.
proof fn lemma_files_wf_of_segments(
    segs: Seq<(u32, Vec<u8>)>,
    files: Seq<DataFile>,
    active: DataFile,
)
    requires
        segs.len() >= 1,
        files.len() == segs.len() - 1,
        forall|i: int, j: int|
            #![trigger segs[i], segs[j]]
            0 <= i < j < segs.len() ==> segs[i].0 < segs[j].0,
        forall|i: int|
            0 <= i < files.len() ==> (#[trigger] files[i]).id() == segs[i].0 && files[i].inv(),
        active.id() == segs[segs.len() - 1].0,
        active.inv(),
    ensures
        files_wf_in(files, active),
{
    assert forall|i: int, j: int|
        #![trigger files[i], files[j]]
        0 <= i < j < files.len() implies files[i].id() < files[j].id() by {
        assert(segs[i].0 < segs[j].0);
    }
    assert forall|i: int| 0 <= i < files.len() implies (#[trigger] files[i]).id() < active.id() by {
        assert(segs[i].0 < segs[segs.len() - 1].0);
    }
}

/// Cutting the active file after every indexed record keeps every
/// valid position valid, with the same record stored at it.
proof fn lemma_pos_preserved_truncate(
    files: Seq<DataFile>,
    a0: DataFile,
    a1: DataFile,
    bound: int,
    pos: LogRecordPos,
)
    requires
        pos_valid_in(files, a0, pos),
        a1.id() == a0.id(),
        0 <= bound <= a0.contents().len(),
        a1.contents() == a0.contents().take(bound),
        pos.file_id == a0.id() ==> parsed_end(files, a0, pos) <= bound,
    ensures
        pos_valid_in(files, a1, pos),
        parsed_at(files, a1, pos) == parsed_at(files, a0, pos),
{
    if pos.file_id == a0.id() {
        let c0 = a0.contents();
        let off = pos.offset as int;
        let x = c0.skip(off);
        let (rec, nn) = spec_parse_record(x)->Some_0;
        let n = nn as int;
        lemma_parse_record_bounds(x);
        assert(off + n <= bound);
        let y = a1.contents().skip(off);
        assert(y.len() == bound - off);
        assert(y.take(n) =~= x.take(n)) by {
            assert(forall|w: int|
                0 <= w < n ==> y.take(n)[w] == c0.take(bound)[off + w] && x.take(n)[w] == c0[off
                    + w]);
        }
        lemma_parse_record_window(x, y);
    }
}

/// One replay step: publishing a parsed record updates the index and
/// the replayed map in step, and keeps every entry within the scanned
/// part of the current file.
proof fn lemma_entries_step(
    i0: BTree,
    i1: BTree,
    base: BTree,
    older: Seq<DataFile>,
    active: DataFile,
    df: DataFile,
    pos: LogRecordPos,
    rec: LogRecordView,
    gm0: Map<Seq<u8>, Seq<u8>>,
    off: int,
    n: int,
)
    requires
        replay_entries_ok(i0, older, active, gm0),
        forall|k: Seq<u8>| #[trigger]
            i0.pos_map().contains_key(k) ==> (i0.pos_map()[k].file_id == df.id() ==> parsed_end(
                older,
                active,
                i0.pos_map()[k],
            ) <= off) && (i0.pos_map()[k].file_id == df.id() || (base.pos_map().contains_key(k)
                && base.pos_map()[k] == i0.pos_map()[k])),
        rec.rec_type == LogRecordType::NORMAL ==> pos_valid_in(older, active, pos),
        parsed_at(older, active, pos) == rec,
        parsed_end(older, active, pos) == off + n,
        n >= 1,
        pos.file_id == df.id(),
        if rec.rec_type == LogRecordType::NORMAL {
            i1.pos_map() == i0.pos_map().insert(rec.key, pos)
        } else {
            i1.pos_map() == i0.pos_map().remove(rec.key)
        },
    ensures
        replay_entries_ok(i1, older, active, apply_record(gm0, rec)),
        forall|k: Seq<u8>| #[trigger]
            i1.pos_map().contains_key(k) ==> (i1.pos_map()[k].file_id == df.id() ==> parsed_end(
                older,
                active,
                i1.pos_map()[k],
            ) <= off + n) && (i1.pos_map()[k].file_id == df.id() || (base.pos_map().contains_key(k)
                && base.pos_map()[k] == i1.pos_map()[k])),
{
}

/// A replayed file set, an exact index over it, and a live map that
/// matches both assemble into a well-formed engine.
proof fn lemma_assemble_engine(engine: Engine, gm: Map<Seq<u8>, Seq<u8>>, m_start: Map<Seq<u8>, Seq<u8>>)
    requires
        engine.options.data_file_size >= 1,
        files_wf_in(engine.older_files@, engine.active_file),
        engine.index.wf(),
        replay_entries_ok(engine.index, engine.older_files@, engine.active_file, gm),
        replay_files(engine.segment_data().drop_last()) == Some(m_start),
        replay_from(engine.active_file.contents(), 0, m_start) == Some(gm),
    ensures
        engine.inv(),
        engine.kv() == gm,
{
    assert(engine.kv() =~= gm);
    assert(engine.segment_data().last() == engine.active_file.contents());
    assert(engine.segment_data().len() > 0);
    assert(replay_files(engine.segment_data()) == Some(gm));
}

/// Replay a single record at `offset`: decode it, publish it to the
/// index, and advance. A clean end of file and a byte run that is no
/// whole record are reported without changing anything.
#[verifier::rlimit(100)]
fn replay_step(
    df: &DataFile,
    index: &mut BTree,
    offset: u64,
    Ghost(older): Ghost<Seq<DataFile>>,
    Ghost(active): Ghost<DataFile>,
    Ghost(m0): Ghost<Map<Seq<u8>, Seq<u8>>>,
    Ghost(gm_in): Ghost<Map<Seq<u8>, Seq<u8>>>,
    Ghost(base): Ghost<BTree>,
) -> (r: Result<(u64, Ghost<Map<Seq<u8>, Seq<u8>>>), Errors>)
    requires
        old(index).wf(),
        df.inv(),
        df.id() == active.id() || older_has(older, df.id()),
        contents_of(older, active, df.id()) == df.contents(),
        0 <= offset as int <= df.contents().len(),
        replay_from(df.contents().take(offset as int), 0, m0) == Some(gm_in),
        replay_entries_ok(*old(index), older, active, gm_in),
        forall|k: Seq<u8>| #[trigger]
            old(index).pos_map().contains_key(k) ==> (old(index).pos_map()[k].file_id == df.id()
                ==> parsed_end(older, active, old(index).pos_map()[k]) <= offset as int) && (old(index).pos_map()[k].file_id == df.id() || (base.pos_map().contains_key(k)
                && base.pos_map()[k] == old(index).pos_map()[k])),
    ensures
        final(index).wf(),
        match r {
            Ok((off2, gm2)) => (offset as int) < off2 as int <= df.contents().len()
                && replay_from(df.contents().take(off2 as int), 0, m0) == Some(gm2@)
                && replay_entries_ok(*final(index), older, active, gm2@) && forall|k: Seq<u8>|
                #[trigger] final(index).pos_map().contains_key(k) ==> (final(index).pos_map()[k].file_id == df.id() ==> parsed_end(
                    older,
                    active,
                    final(index).pos_map()[k],
                ) <= off2 as int) && (final(index).pos_map()[k].file_id == df.id() || (
                base.pos_map().contains_key(k) && base.pos_map()[k] == final(index).pos_map()[k])),
            Err(e) => *final(index) == *old(index) && (e == Errors::ReadDataFileEOF || e
                == Errors::CorruptRecord) && (e == Errors::ReadDataFileEOF ==> offset as int
                == df.contents().len()) && (e == Errors::CorruptRecord ==> (offset as int)
                < df.contents().len() && spec_parse_record(
                df.contents().skip(offset as int),
            ) is None && replay_from(df.contents(), offset as int, gm_in) is None),
        },
{
    let ghost c = df.contents();
    match df.read_log_record(offset) {
        Err(e) => {
            if e == Errors::ReadDataFileEOF {
                Err(Errors::ReadDataFileEOF)
            } else {
                Err(Errors::CorruptRecord)
            }
        },
        Ok(rr) => {
            let pos = LogRecordPos { file_id: df.get_file_id(), offset };
            let ghost rec = rr.record@;
            let ghost n = rr.size as int;
            let ghost i0 = *index;
            let ghost gm_out = apply_record(gm_in, rec);
            proof {
                lemma_parse_record_bounds(c.skip(offset as int));
                // The replayed prefix grows by exactly this record.
                let chunk = c.skip(offset as int).take(n);
                lemma_parse_record_take(c.skip(offset as int));
                assert(chunk.len() == n);
                assert(c.take(offset as int + n) =~= c.take(offset as int) + chunk);
                lemma_replay_append(c.take(offset as int), 0, m0, chunk, rec);
                assert(replay_from(c.take(offset as int + n), 0, m0) == Some(gm_out));
                // The new position stores this record.
                assert(contents_of(older, active, pos.file_id) == c);
                assert(parsed_at(older, active, pos) == rec && parsed_end(older, active, pos)
                    == offset + n);
                if rec.rec_type == LogRecordType::NORMAL {
                    assert(pos_valid_in(older, active, pos));
                }
            }
            if rr.record.rec_type == LogRecordType::NORMAL {
                let _ = index.put(rr.record.key, pos);
            } else {
                let _ = index.delete(rr.record.key);
            }
            proof {
                lemma_entries_step(
                    i0,
                    *index,
                    base,
                    older,
                    active,
                    *df,
                    pos,
                    rec,
                    gm_in,
                    offset as int,
                    n,
                );
            }
            Ok((offset + (rr.size as u64), Ghost(gm_out)))
        },
    }
}

/// Replay one file's records from its start, updating the index and
/// the replayed map in step. `Ok` carries the clean end offset; `Err`
/// carries the offset of the first byte that does not parse as a whole
/// record, with everything before it replayed.
fn replay_file(
    df: &DataFile,
    index: &mut BTree,
    Ghost(older): Ghost<Seq<DataFile>>,
    Ghost(active): Ghost<DataFile>,
    Ghost(m0): Ghost<Map<Seq<u8>, Seq<u8>>>,
) -> (r: Result<(u64, Ghost<Map<Seq<u8>, Seq<u8>>>), (u64, Ghost<Map<Seq<u8>, Seq<u8>>>)>)
    requires
        old(index).wf(),
        df.inv(),
        df.id() == active.id() || older_has(older, df.id()),
        contents_of(older, active, df.id()) == df.contents(),
        replay_entries_ok(*old(index), older, active, m0),
        forall|k: Seq<u8>| #[trigger]
            old(index).pos_map().contains_key(k) ==> old(index).pos_map()[k].file_id != df.id(),
    ensures
        final(index).wf(),
        match r {
            Ok((off, gm)) => off as int == df.contents().len() && replay_from(
                df.contents(),
                0,
                m0,
            ) == Some(gm@) && replay_entries_ok(*final(index), older, active, gm@) && forall|
                k: Seq<u8>,
            |
                #[trigger] final(index).pos_map().contains_key(k) ==> (final(index).pos_map()[k].file_id == df.id() ==> parsed_end(
                    older,
                    active,
                    final(index).pos_map()[k],
                ) <= off as int) && (final(index).pos_map()[k].file_id == df.id() || (old(index).pos_map().contains_key(k) && old(index).pos_map()[k] == final(index).pos_map()[k])),
            Err((off, gm)) => replay_from(df.contents(), 0, m0) is None && (off as int)
                < df.contents().len() && spec_parse_record(df.contents().skip(off as int))
                is None && replay_from(df.contents().take(off as int), 0, m0) == Some(gm@)
                && replay_entries_ok(*final(index), older, active, gm@) && forall|
                k: Seq<u8>,
            |
                #[trigger] final(index).pos_map().contains_key(k) ==> (final(index).pos_map()[k].file_id == df.id() ==> parsed_end(
                    older,
                    active,
                    final(index).pos_map()[k],
                ) <= off as int) && (final(index).pos_map()[k].file_id == df.id() || (old(index).pos_map().contains_key(k) && old(index).pos_map()[k] == final(index).pos_map()[k])),
        },
{
    let mut offset: u64 = 0;
    let ghost mut gm = m0;
    let ghost c = df.contents();
    proof {
        assert(c.take(0) =~= Seq::<u8>::empty());
    }
    loop
        invariant
            index.wf(),
            df.inv(),
            c == df.contents(),
            df.id() == active.id() || older_has(older, df.id()),
            contents_of(older, active, df.id()) == c,
            0 <= offset as int <= c.len(),
            replay_from(c.take(offset as int), 0, m0) == Some(gm),
            replay_entries_ok(*index, older, active, gm),
            forall|k: Seq<u8>| #[trigger]
                index.pos_map().contains_key(k) ==> (index.pos_map()[k].file_id == df.id()
                    ==> parsed_end(older, active, index.pos_map()[k]) <= offset as int) && (
                index.pos_map()[k].file_id == df.id() || (old(index).pos_map().contains_key(k)
                    && old(index).pos_map()[k] == index.pos_map()[k])),
        decreases c.len() - offset,
    {
        let step = replay_step(
            df,
            index,
            offset,
            Ghost(older),
            Ghost(active),
            Ghost(m0),
            Ghost(gm),
            Ghost(*old(index)),
        );
        match step {
            Ok((off2, gm2)) => {
                offset = off2;
                proof {
                    gm = gm2@;
                }
            },
            Err(e) => {
                if e == Errors::ReadDataFileEOF {
                    proof {
                        assert(c.take(offset as int) =~= c);
                    }
                    return Ok((offset, Ghost(gm)));
                }
                proof {
                    assert(replay_from(c, offset as int, gm) is None);
                    assert(replay_from(c, 0, m0) is None) by {
                        lemma_replay_of_prefix(c, offset as int, m0, gm);
                    }
                }
                return Err((offset, Ghost(gm)));
            },
        }
    }
}

/// Replaying from the start runs through any cleanly replayed prefix:
/// the whole file's replay equals the replay from the prefix's end.
proof fn lemma_replay_of_prefix(c: Seq<u8>, off: int, m0: Map<Seq<u8>, Seq<u8>>, gm: Map<Seq<u8>, Seq<u8>>)
    requires
        0 <= off <= c.len(),
        replay_from(c.take(off), 0, m0) == Some(gm),
    ensures
        replay_from(c, 0, m0) == replay_from(c, off, gm),
{
    lemma_replay_of_prefix_from(c, 0, off, m0);
}

/// Helper for `lemma_replay_of_prefix`, generalized over the scan
/// position within the prefix.
proof fn lemma_replay_of_prefix_from(c: Seq<u8>, at: int, off: int, m: Map<Seq<u8>, Seq<u8>>)
    requires
        0 <= at <= off <= c.len(),
        replay_from(c.take(off), at, m) is Some,
    ensures
        replay_from(c, at, m) == replay_from(c, off, replay_from(c.take(off), at, m)->Some_0),
    decreases off - at,
{
    let p = c.take(off);
    if at == off {
        assert(replay_from(p, at, m) == Some(m));
    } else {
        assert(spec_parse_record(p.skip(at)) is Some);
        let (r0, n0) = spec_parse_record(p.skip(at))->Some_0;
        lemma_parse_record_bounds(p.skip(at));
        assert(c.skip(at) =~= p.skip(at) + c.skip(off));
        lemma_parse_record_append(p.skip(at), c.skip(off));
        lemma_replay_of_prefix_from(c, at + n0 as int, off, apply_record(m, r0));
    }
}

/// Publishing a freshly appended normal record to the index restores
/// the engine invariant and binds exactly its key in the live map.
proof fn lemma_publish_insert(
    pre: Engine,
    post: Engine,
    key: Seq<u8>,
    value: Seq<u8>,
    pos: LogRecordPos,
)
    requires
        pre.inv(),
        post.options == pre.options,
        post.index.wf(),
        post.index.pos_map() == pre.index.pos_map().insert(key, pos),
        files_wf_in(post.older_files@, post.active_file),
        pos_valid_in(post.older_files@, post.active_file, pos),
        parsed_at(post.older_files@, post.active_file, pos) == (LogRecordView {
            key,
            value,
            rec_type: LogRecordType::NORMAL,
        }),
        forall|q: LogRecordPos|
            pos_valid_in(pre.older_files@, pre.active_file, q) ==> #[trigger] pos_valid_in(
                post.older_files@,
                post.active_file,
                q,
            ) && parsed_at(post.older_files@, post.active_file, q) == parsed_at(
                pre.older_files@,
                pre.active_file,
                q,
            ),
        replay_files(post.segment_data()) == Some(
            apply_record(
                pre.kv(),
                LogRecordView { key, value, rec_type: LogRecordType::NORMAL },
            ),
        ),
    ensures
        post.inv(),
        post.kv() == pre.kv().insert(key, value),
{
    assert forall|k2: Seq<u8>| #[trigger]
        post.index.pos_map().contains_key(k2) implies pos_valid_in(
        post.older_files@,
        post.active_file,
        post.index.pos_map()[k2],
    ) && parsed_at(post.older_files@, post.active_file, post.index.pos_map()[k2]).key == k2 by {
        if k2 != key {
            assert(pre.index.pos_map().contains_key(k2));
            assert(pos_valid_in(pre.older_files@, pre.active_file, pre.index.pos_map()[k2]));
        }
    }
    assert(post.kv() =~= pre.kv().insert(key, value)) by {
        assert forall|k2: Seq<u8>| #[trigger]
            post.kv().contains_key(k2) implies post.kv()[k2] == pre.kv().insert(key, value)[k2] by {
            if k2 != key {
                assert(pos_valid_in(pre.older_files@, pre.active_file, pre.index.pos_map()[k2]));
            }
        }
    }
}

/// Dropping a key from the index after appending its tombstone restores
/// the engine invariant and removes exactly that key from the live map.
proof fn lemma_publish_remove(pre: Engine, post: Engine, key: Seq<u8>)
    requires
        pre.inv(),
        post.options == pre.options,
        post.index.wf(),
        post.index.pos_map() == pre.index.pos_map().remove(key),
        files_wf_in(post.older_files@, post.active_file),
        forall|q: LogRecordPos|
            pos_valid_in(pre.older_files@, pre.active_file, q) ==> #[trigger] pos_valid_in(
                post.older_files@,
                post.active_file,
                q,
            ) && parsed_at(post.older_files@, post.active_file, q) == parsed_at(
                pre.older_files@,
                pre.active_file,
                q,
            ),
        replay_files(post.segment_data()) == Some(
            apply_record(
                pre.kv(),
                LogRecordView { key, value: Seq::empty(), rec_type: LogRecordType::DELETED },
            ),
        ),
    ensures
        post.inv(),
        post.kv() == pre.kv().remove(key),
{
    assert forall|k2: Seq<u8>| #[trigger]
        post.index.pos_map().contains_key(k2) implies pos_valid_in(
        post.older_files@,
        post.active_file,
        post.index.pos_map()[k2],
    ) && parsed_at(post.older_files@, post.active_file, post.index.pos_map()[k2]).key == k2 by {
        assert(pre.index.pos_map().contains_key(k2));
        assert(pos_valid_in(pre.older_files@, pre.active_file, pre.index.pos_map()[k2]));
    }
    assert(post.kv() =~= pre.kv().remove(key)) by {
        assert forall|k2: Seq<u8>| #[trigger]
            post.kv().contains_key(k2) implies post.kv()[k2] == pre.kv().remove(key)[k2] by {
            assert(pos_valid_in(pre.older_files@, pre.active_file, pre.index.pos_map()[k2]));
        }
    }
}

/// Appending one whole record to the active file preserves every valid
/// position and advances the replay of the file set by that record.
proof fn lemma_append_step(mid: Engine, post: Engine, enc: Seq<u8>, rec: LogRecordView)
    requires
        files_wf_in(mid.older_files@, mid.active_file),
        post.older_files@ == mid.older_files@,
        post.active_file.id() == mid.active_file.id(),
        post.active_file.contents() == mid.active_file.contents() + enc,
        spec_parse_record(enc) == Some((rec, enc.len() as nat)),
        enc.len() > 0,
    ensures
        forall|q: LogRecordPos|
            pos_valid_in(mid.older_files@, mid.active_file, q) ==> #[trigger] pos_valid_in(
                post.older_files@,
                post.active_file,
                q,
            ) && parsed_at(post.older_files@, post.active_file, q) == parsed_at(
                mid.older_files@,
                mid.active_file,
                q,
            ),
        replay_files(mid.segment_data()) matches Some(m) ==> replay_files(post.segment_data())
            == Some(apply_record(m, rec)),
{
    assert forall|q: LogRecordPos|
        pos_valid_in(mid.older_files@, mid.active_file, q) implies #[trigger] pos_valid_in(
        post.older_files@,
        post.active_file,
        q,
    ) && parsed_at(post.older_files@, post.active_file, q) == parsed_at(
        mid.older_files@,
        mid.active_file,
        q,
    ) by {
        lemma_pos_preserved_append(mid.older_files@, mid.active_file, post.active_file, enc, q);
    }
    if replay_files(mid.segment_data()) is Some {
        let m = replay_files(mid.segment_data())->Some_0;
        assert(replay_files(mid.segment_data().drop_last()) is Some);
        let m0 = replay_files(mid.segment_data().drop_last())->Some_0;
        assert(replay_from(mid.active_file.contents(), 0, m0) == Some(m));
        lemma_replay_append(mid.active_file.contents(), 0, m0, enc, rec);
        assert(post.segment_data().drop_last() =~= mid.segment_data().drop_last());
        assert(post.segment_data().last() == mid.active_file.contents() + enc);
    }
}

/// Rotation keeps every file within the size threshold, except that a
/// single oversize record stands alone in its file.
proof fn lemma_append_size_bound(pre: Engine, mid: Engine, post: Engine, enc: Seq<u8>, rec: LogRecordView)
    requires
        pre.size_bounded(),
        post.options == pre.options,
        mid.options == pre.options,
        spec_parse_record(enc) == Some((rec, enc.len() as nat)),
        post.active_file.contents() == mid.active_file.contents() + enc,
        // Either no rotation happened and the append fits the threshold,
        // or the record went into a fresh file.
        mid.active_file.id() == pre.active_file.id() ==> mid.active_file == pre.active_file
            && mid.older_files@ == pre.older_files@ && mid.active_file.off() + enc.len()
            <= pre.options.data_file_size && mid.active_file.inv(),
        mid.active_file.id() != pre.active_file.id() ==> mid.active_file.contents()
            == Seq::<u8>::empty() && mid.older_files@ == pre.older_files@.push(pre.active_file),
        post.older_files@ == mid.older_files@,
    ensures
        post.size_bounded(),
{
    if mid.active_file.id() == pre.active_file.id() {
        assert(post.active_contents().len() <= post.data_file_size());
        assert(forall|i: int|
            0 <= i < post.sealed_count() ==> #[trigger] post.sealed_contents(i)
                == pre.sealed_contents(i));
    } else {
        assert(post.active_contents() =~= enc);
        if post.active_contents().len() > post.data_file_size() {
            assert(post.is_single_record(post.active_contents()));
        }
        assert(forall|i: int|
            0 <= i < pre.sealed_count() ==> #[trigger] post.sealed_contents(i)
                == pre.sealed_contents(i));
        assert(post.sealed_contents(pre.sealed_count()) == pre.active_contents());
    }
}

/// After a successful `put(k, v)`, a `get(k)` observes exactly `v`: in
/// the live map that `put` builds, the key is bound to the new value,
/// which is what `get` returns for it.
pub proof fn lemma_put_then_get(m: Map<Seq<u8>, Seq<u8>>, k: Seq<u8>, v: Seq<u8>)
    ensures
        m.insert(k, v).contains_key(k),
        m.insert(k, v)[k] == v,
{
}

/// After a successful `delete(k)`, a `get(k)` misses, and keeps missing
/// until a later `put(k, _)` binds the key again.
pub proof fn lemma_delete_then_get(m: Map<Seq<u8>, Seq<u8>>, k: Seq<u8>, v: Seq<u8>)
    ensures
        !m.remove(k).contains_key(k),
        m.remove(k).insert(k, v).contains_key(k),
        m.remove(k).insert(k, v)[k] == v,
{
}

/// Reopening rebuilds the same store: replaying the very segments a
/// well-formed engine holds yields exactly its live key/value map, so
/// an engine opened over them answers every `get` the same way.
pub proof fn lemma_reopen_equivalence(e: Engine)
    requires
        e.inv(),
    ensures
        replay_files(e.segment_data()) == Some(e.kv()),
{
}

} // verus!
