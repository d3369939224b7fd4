use vstd::prelude::*;

use crate::data::data_file::DataFile;
use crate::data::log_record::{
    frame_len, lemma_parse_frame_encode, lemma_parse_frame_extend, lemma_record_frame_len,
    parse_frame, record_frame, LogRecord, LogRecordPos, LogRecordType, LogRecordView, ParsedRecord,
};
use crate::data::varint::{lemma_varint_len, parse_varint, varint, varint_len};
use crate::errors::Errors;
use crate::index::btree::Btree;
use crate::options::Options;

pub mod startup;

verus! {

/// The storage engine: the active data file every append goes to, the
/// read-only files rollover has retired, the in-memory key directory, and the
/// batch sequence counter.
pub struct Engine {
    pub(crate) options: Options,
    pub(crate) active_file: DataFile,
    pub(crate) older_files: Vec<DataFile>,
    pub(crate) indexer: Btree,
    pub(crate) seq_no: u64,
}

impl Engine {
    /// The active data file.
    pub closed spec fn spec_active(self) -> DataFile {
        self.active_file
    }

    /// The retired data files.
    pub closed spec fn spec_older(self) -> Seq<DataFile> {
        self.older_files@
    }

    /// The key directory.
    pub closed spec fn spec_indexer(self) -> Btree {
        self.indexer
    }

    /// The options the engine was opened with.
    pub closed spec fn spec_options(self) -> Options {
        self.options
    }

    /// The batch sequence counter.
    pub closed spec fn spec_seq_no(self) -> u64 {
        self.seq_no
    }

    /// The id of the file appends currently go to.
    pub open spec fn active_id(self) -> u32 {
        self.spec_active().id()
    }

    /// The retired files as (id, contents) pairs, in ascending id order.
    pub open spec fn older_views(self) -> Seq<(u32, Seq<u8>)> {
        self.spec_older().map_values(|f: DataFile| (f.id(), f.data()))
    }

    /// Whether a retired file with this id exists.
    pub open spec fn has_older(self, fid: u32) -> bool {
        exists|i: int|
            0 <= i < self.older_views().len() && (#[trigger] self.older_views()[i]).0 == fid
    }

    /// The bytes of the retired file with this id.
    pub open spec fn older_data(self, fid: u32) -> Seq<u8> {
        self.older_views()[choose|i: int|
            0 <= i < self.older_views().len() && (#[trigger] self.older_views()[i]).0 == fid].1
    }

    /// Whether a data file with this id exists.
    pub open spec fn has_file(self, fid: u32) -> bool {
        fid == self.active_id() || self.has_older(fid)
    }

    /// The bytes of the data file with this id; the active file shadows a
    /// retired one of the same id, as reads do.
    pub open spec fn file_data(self, fid: u32) -> Seq<u8> {
        if fid == self.active_id() {
            self.spec_active().data()
        } else {
            self.older_data(fid)
        }
    }

    /// The file layer is in shape: the active file appends at its end, and
    /// the retired files carry strictly ascending ids below the active one.
    pub open spec fn files_wf(self) -> bool {
        &&& self.spec_active().wf()
        &&& forall|i: int, j: int|
            0 <= i < j < self.older_views().len() ==> (#[trigger] self.older_views()[i]).0 < (
            #[trigger] self.older_views()[j]).0
        &&& forall|i: int|
            0 <= i < self.older_views().len() ==> (#[trigger] self.older_views()[i]).0
                < self.active_id()
        &&& self.spec_options().data_file_size > 0
    }

    /// What stands at `pos` for the user key `k`: a whole, checksummed NORMAL
    /// frame whose framed key reads back as `k` behind its sequence-number
    /// prefix.
    pub open spec fn valid_pos(self, pos: LogRecordPos, k: Seq<u8>) -> bool {
        &&& self.has_file(pos.file_id)
        &&& (parse_frame(self.file_data(pos.file_id), pos.offset as int) matches
            ParsedRecord::Valid { rec, size } && rec.rec_type == LogRecordType::NORMAL && (
        parse_varint(rec.key, 0) matches Some(sp) && rec.key.skip(sp.1) == k))
    }

    /// The record a directory entry points to.
    pub open spec fn record_at(self, pos: LogRecordPos) -> LogRecordView {
        parse_frame(self.file_data(pos.file_id), pos.offset as int)->rec
    }

    /// The engine is in shape: the files are, the directory is, and every
    /// directory entry points at a live record for its own key.
    pub open spec fn wf(self) -> bool {
        &&& self.files_wf()
        &&& self.spec_indexer().wf()
        &&& forall|k: Seq<u8>|
            self.spec_indexer().as_map().dom().contains(k) ==> self.valid_pos(
                #[trigger] self.spec_indexer().as_map()[k],
                k,
            )
    }

    /// The key/value store the engine holds: each live key mapped to the
    /// value bytes of the record its directory entry points to.
    pub open spec fn kv(self) -> Map<Seq<u8>, Seq<u8>> {
        Map::new(
            |k: Seq<u8>| self.spec_indexer().as_map().dom().contains(k),
            |k: Seq<u8>| self.record_at(self.spec_indexer().as_map()[k]).value,
        )
    }

    /// The engine's files replay back to exactly its in-memory state: the
    /// active file scans whole to its end, and recovering every file in
    /// order rebuilds the directory the engine holds and the counter it
    /// stands at, with every buffered batch at or below that counter.
    pub open spec fn durable(self) -> bool {
        &&& (scan_file(self.active_id(), self.spec_active().data(), 0) matches Some(p) && p.1
            == self.spec_active().data().len())
        &&& (recover(self.all_file_views()) matches Some(st) && st.index
            == self.spec_indexer().as_map() && st.max_seq == self.spec_seq_no() && staged_bounded(
            st,
        ))
    }

    /// Every file of `pre` is still there in `post` with its bytes unchanged,
    /// at most appended to: what one engine state wrote, the next still holds.
    pub open spec fn extends(pre: Engine, post: Engine) -> bool {
        forall|fid: u32|
            #[trigger] pre.has_file(fid) ==> post.has_file(fid) && pre.file_data(fid).len()
                <= post.file_data(fid).len() && post.file_data(fid).subrange(
                0,
                pre.file_data(fid).len() as int,
            ) == pre.file_data(fid)
    }
}

/// In a well-shaped file layer the retired file found for an id is the only
/// one carrying it.
pub proof fn lemma_older_data_at(e: Engine, i: int)
    requires
        e.files_wf(),
        0 <= i < e.older_views().len(),
    ensures
        e.has_older(e.older_views()[i].0),
        e.older_data(e.older_views()[i].0) == e.older_views()[i].1,
    decreases 0int,
{
    let fid = e.older_views()[i].0;
    assert(e.has_older(fid)) by {
        assert(0 <= i < e.older_views().len() && (#[trigger] e.older_views()[i]).0 == fid);
    }
    assert forall|q: int|
        0 <= q < e.older_views().len() && (#[trigger] e.older_views()[q]).0 == fid implies q
        == i by {
        if q < i {
            assert(e.older_views()[q].0 < e.older_views()[i].0);
        }
        if q > i {
            assert(e.older_views()[i].0 < e.older_views()[q].0);
        }
    }
    assert(e.older_data(fid) == e.older_views()[i].1);
}

/// A record whose position is valid stays valid when files only grow.
pub proof fn lemma_valid_pos_extends(pre: Engine, post: Engine, pos: LogRecordPos, k: Seq<u8>)
    requires
        pre.valid_pos(pos, k),
        Engine::extends(pre, post),
    ensures
        post.valid_pos(pos, k),
        post.record_at(pos) == pre.record_at(pos),
{
    assert(pre.has_file(pos.file_id));
    lemma_parse_frame_extend(
        pre.file_data(pos.file_id),
        post.file_data(pos.file_id),
        pos.offset as int,
    );
}

impl Engine {
    /// Appends one encoded record to the active file, rolling over to a new
    /// file first when the record would push it past the configured size.
    /// Hands back where the record landed. The retired file keeps its bytes
    /// and stays readable among the older files.
    #[verifier::rlimit(100)]
    #[verifier::spinoff_prover]
    pub(crate) fn append_log_record(&mut self, log_record: &LogRecord) -> (r: Result<
        LogRecordPos,
        Errors,
    >)
        requires
            old(self).files_wf(),
            old(self).active_id() < u32::MAX,
            1 <= log_record.key@.len() <= u32::MAX,
            log_record.value@.len() <= u32::MAX,
            log_record.key@.len() + log_record.value@.len() + 25 <= usize::MAX,
        ensures
            final(self).files_wf(),
            final(self).spec_options() == old(self).spec_options(),
            final(self).spec_seq_no() == old(self).spec_seq_no(),
            final(self).spec_indexer() == old(self).spec_indexer(),
            Engine::extends(*old(self), *final(self)),
            r is Ok,
            ({
                let pos = r->Ok_0;
                let fl = frame_len(log_record.key@.len(), log_record.value@.len());
                &&& pos.file_id == final(self).active_id()
                &&& final(self).has_file(pos.file_id)
                &&& parse_frame(final(self).file_data(pos.file_id), pos.offset as int)
                    == (ParsedRecord::Valid {
                    rec: log_record@,
                    size: fl as int,
                })
                &&& final(self).spec_active().data() == final(self).file_data(pos.file_id)
                &&& pos.offset + fl == final(self).spec_active().off()
                &&& if old(self).spec_active().off() + record_frame(
                    log_record.key@,
                    log_record.value@,
                    log_record.rec_type,
                ).len() <= old(self).spec_options().data_file_size {
                    &&& final(self).active_id() == old(self).active_id()
                    &&& final(self).older_views() == old(self).older_views()
                    &&& pos.offset == old(self).spec_active().off()
                    &&& final(self).spec_active().data() == old(self).spec_active().data()
                        + record_frame(log_record.key@, log_record.value@, log_record.rec_type)
                } else {
                    &&& final(self).active_id() == old(self).active_id() + 1
                    &&& final(self).older_views() == old(self).older_views().push(
                        (old(self).active_id(), old(self).spec_active().data()),
                    )
                    &&& pos.offset == 0
                    &&& final(self).spec_active().data() == record_frame(
                        log_record.key@,
                        log_record.value@,
                        log_record.rec_type,
                    )
                }
            }),
    {
        let ghost pre = *old(self);
        let enc_record = log_record.encode();
        let record_len = enc_record.len() as u64;
        proof {
            lemma_record_frame_len(log_record.key@, log_record.value@, log_record.rec_type);
        }
        let write_off_now = self.active_file.get_write_off();
        let rolled: bool = write_off_now > self.options.data_file_size || record_len
            > self.options.data_file_size - write_off_now;
        if rolled {
            match self.active_file.sync() {
                Ok(()) => (),
                Err(e) => {
                    proof {
                        assert(false);
                    }
                    return Err(e);
                },
            }
            let current_fid = self.active_file.get_file_id();
            let mut retiring = DataFile::new(current_fid + 1, Vec::new());
            core::mem::swap(&mut self.active_file, &mut retiring);
            self.older_files.push(retiring);
            proof {
                assert(self.older_views() =~= pre.older_views().push(
                    (pre.active_id(), pre.spec_active().data()),
                ));
            }
        }
        let write_off = self.active_file.get_write_off();
        let ghost data_before = self.active_file.data();
        match self.active_file.write(&enc_record) {
            Ok(_) => (),
            Err(e) => {
                proof {
                    assert(false);
                }
                return Err(e);
            },
        }
        if self.options.sync_writes {
            match self.active_file.sync() {
                Ok(()) => (),
                Err(e) => {
                    proof {
                        assert(false);
                    }
                    return Err(e);
                },
            }
        }
        let pos = LogRecordPos { file_id: self.active_file.get_file_id(), offset: write_off };
        proof {
            let fl = frame_len(log_record.key@.len(), log_record.value@.len());
            let frame = record_frame(log_record.key@, log_record.value@, log_record.rec_type);
            let fdata = self.active_file.data();
            assert(fdata == data_before + frame);
            assert(fdata.subrange(write_off as int, write_off + fl as int) =~= frame);
            lemma_parse_frame_encode(
                fdata,
                write_off as int,
                log_record.key@,
                log_record.value@,
                log_record.rec_type,
            );
            if rolled {
                lemma_append_extends_roll(pre, *self);
            } else {
                assert(self.spec_active().data().subrange(
                    0,
                    pre.spec_active().data().len() as int,
                ) =~= pre.spec_active().data());
                lemma_append_extends_noroll(pre, *self);
            }
        }
        Ok(pos)
    }
}

/// The closed engine views name exactly the engine's fields; stated once so
/// sibling modules can bridge the two in proofs.
pub(crate) proof fn lemma_engine_fields(e: Engine)
    ensures
        e.spec_indexer() == e.indexer,
        e.spec_active() == e.active_file,
        e.spec_older() == e.older_files@,
        e.spec_options() == e.options,
        e.spec_seq_no() == e.seq_no,
{
}

impl Engine {
    /// Reads the value stored at a record position: the record is fetched
    /// from the active or the retired file the position names and checked on
    /// the way; a tombstone reads as `KeyNotFound`.
    pub(crate) fn get_value_by_position(&self, pos: LogRecordPos) -> (r: Result<Vec<u8>, Errors>)
        requires
            self.files_wf(),
        ensures
            if !self.has_file(pos.file_id) {
                r == Err::<Vec<u8>, Errors>(Errors::DataFileNotFound)
            } else {
                match parse_frame(self.file_data(pos.file_id), pos.offset as int) {
                    ParsedRecord::Eof => r == Err::<Vec<u8>, Errors>(Errors::ReadDataFileEOF),
                    ParsedRecord::Corrupt => r == Err::<Vec<u8>, Errors>(
                        Errors::InvalidLogRecordCrc,
                    ),
                    ParsedRecord::Valid { rec, size } => if rec.rec_type
                        == LogRecordType::DELETED {
                        r == Err::<Vec<u8>, Errors>(Errors::KeyNotFound)
                    } else {
                        r is Ok && r->Ok_0@ == rec.value
                    },
                }
            },
    {
        let read_res: Result<crate::data::log_record::ReadLogRecord, Errors>;
        if self.active_file.get_file_id() == pos.file_id {
            read_res = self.active_file.read_log_record(pos.offset);
        } else {
            let mut i: usize = 0;
            let mut found: bool = false;
            while i < self.older_files.len() && !found
                invariant
                    i <= self.older_files.len(),
                    forall|q: int|
                        0 <= q < i ==> (#[trigger] self.older_views()[q]).0 != pos.file_id,
                    found ==> i < self.older_files.len() && self.older_views()[i as int].0
                        == pos.file_id,
                decreases self.older_files.len() - i, (if found {
                    0int
                } else {
                    1int
                }),
            {
                proof {
                    assert(self.older_views()[i as int] == (
                        self.older_files@[i as int].id(),
                        self.older_files@[i as int].data(),
                    ));
                }
                if self.older_files[i].get_file_id() == pos.file_id {
                    found = true;
                } else {
                    i = i + 1;
                }
            }
            if !found {
                proof {
                    assert(!self.has_older(pos.file_id));
                }
                return Err(Errors::DataFileNotFound);
            }
            proof {
                lemma_older_data_at(*self, i as int);
                assert(self.older_views()[i as int] == (
                    self.older_files@[i as int].id(),
                    self.older_files@[i as int].data(),
                ));
                assert(self.file_data(pos.file_id) == self.older_files@[i as int].data());
            }
            read_res = self.older_files[i].read_log_record(pos.offset);
        }
        let log_record = match read_res {
            Ok(rlr) => rlr.record,
            Err(e) => {
                return Err(e);
            },
        };
        if log_record.rec_type.as_u8() == 2 {
            return Err(Errors::KeyNotFound);
        }
        Ok(log_record.value)
    }

    /// Stores `value` under `key`: the record is appended to the log and the
    /// directory entry for `key` is pointed at it, so the store afterwards
    /// maps `key` to `value` and every other key to what it held before.
    pub fn put(&mut self, key: Vec<u8>, value: Vec<u8>) -> (r: Result<(), Errors>)
        requires
            old(self).wf(),
            old(self).active_id() < u32::MAX,
            key@.len() + 1 <= u32::MAX,
            value@.len() <= u32::MAX,
            key@.len() + value@.len() + 26 <= usize::MAX,
        ensures
            final(self).wf(),
            final(self).spec_options() == old(self).spec_options(),
            final(self).spec_seq_no() == old(self).spec_seq_no(),
            key@.len() == 0 ==> r == Err::<(), Errors>(Errors::KeyIsEmpty) && *final(self) == *old(
                self,
            ),
            old(self).durable() ==> final(self).durable(),
            key@.len() > 0 ==> r is Ok && final(self).kv() == old(self).kv().insert(key@, value@)
                && Engine::extends(*old(self), *final(self)) && final(self).active_id() <= old(
                self,
            ).active_id() + 1 && ({
                let frame = record_frame(
                    varint(0nat) + key@,
                    value@,
                    LogRecordType::NORMAL,
                );
                if old(self).spec_active().off() + frame.len() <= old(
                    self,
                ).spec_options().data_file_size {
                    &&& final(self).active_id() == old(self).active_id()
                    &&& final(self).older_views() == old(self).older_views()
                    &&& final(self).spec_active().data() == old(self).spec_active().data() + frame
                } else {
                    &&& final(self).active_id() == old(self).active_id() + 1
                    &&& final(self).older_views() == old(self).older_views().push(
                        (old(self).active_id(), old(self).spec_active().data()),
                    )
                    &&& final(self).spec_active().data() == frame
                }
            }),
    {
        if key.is_empty() {
            return Err(Errors::KeyIsEmpty);
        }
        let ghost pre = *old(self);
        let framed = crate::batch::log_record_key_with_seq(
            &key,
            crate::batch::NON_TRANSACTION_SEQ_NO,
        );
        proof {
            lemma_varint_len(0nat);
        }
        let record = LogRecord { key: framed, value, rec_type: LogRecordType::NORMAL };
        let log_record_pos = match self.append_log_record(&record) {
            Ok(p) => p,
            Err(e) => {
                proof {
                    assert(false);
                }
                return Err(e);
            },
        };
        let ghost mid = *self;
        let ok = self.indexer.put(key, log_record_pos);
        if !ok {
            proof {
                assert(false);
            }
            return Err(Errors::IndexUpdateFailed);
        }
        proof {
            crate::batch::lemma_key_framing_round_trip(key@, 0);
            self.lemma_after_index_update(pre, mid, key@, log_record_pos, record@);
            assert(self.kv() =~= pre.kv().insert(key@, record@.value));
            if pre.durable() {
                crate::data::varint::lemma_varint_len(0nat);
                assert(pre.spec_active().off() == pre.spec_active().data().len());
                lemma_durable_append(pre, mid, record@, log_record_pos);
                let st = recover(pre.all_file_views())->Some_0;
                assert(replay_step(st, record@, log_record_pos) is Some);
                let st2 = replay_step(st, record@, log_record_pos)->Some_0;
                assert(st2.index == st.index.insert(key@, log_record_pos));
                assert(self.all_file_views() == mid.all_file_views());
                assert(self.durable());
            }
        }
        Ok(())
    }

    /// The value stored under `key`, read back from the log through the
    /// directory.
    pub fn get(&self, key: Vec<u8>) -> (r: Result<Vec<u8>, Errors>)
        requires
            self.wf(),
        ensures
            key@.len() == 0 ==> r == Err::<Vec<u8>, Errors>(Errors::KeyIsEmpty),
            key@.len() > 0 && !self.kv().dom().contains(key@) ==> r == Err::<Vec<u8>, Errors>(
                Errors::KeyNotFound,
            ),
            key@.len() > 0 && self.kv().dom().contains(key@) ==> r is Ok && r->Ok_0@
                == self.kv()[key@],
    {
        if key.is_empty() {
            return Err(Errors::KeyIsEmpty);
        }
        let ghost k = key@;
        let pos = match self.indexer.get(key) {
            None => {
                return Err(Errors::KeyNotFound);
            },
            Some(pos) => pos,
        };
        proof {
            assert(self.valid_pos(self.spec_indexer().as_map()[k], k));
        }
        self.get_value_by_position(pos)
    }

    /// Removes `key` from the store: a tombstone is appended and the
    /// directory entry goes away. Removing an absent key changes nothing and
    /// succeeds, without writing a tombstone.
    pub fn delete(&mut self, key: Vec<u8>) -> (r: Result<(), Errors>)
        requires
            old(self).wf(),
            old(self).active_id() < u32::MAX,
            key@.len() + 1 <= u32::MAX,
            key@.len() + 26 <= usize::MAX,
        ensures
            final(self).wf(),
            final(self).spec_options() == old(self).spec_options(),
            final(self).spec_seq_no() == old(self).spec_seq_no(),
            key@.len() == 0 ==> r == Err::<(), Errors>(Errors::KeyIsEmpty) && *final(self) == *old(
                self,
            ),
            key@.len() > 0 && !old(self).kv().dom().contains(key@) ==> r is Ok && *final(self)
                == *old(self),
            old(self).durable() ==> final(self).durable(),
            key@.len() > 0 && old(self).kv().dom().contains(key@) ==> r is Ok && final(self).kv()
                == old(self).kv().remove(key@) && Engine::extends(*old(self), *final(self))
                && final(self).active_id() <= old(self).active_id() + 1 && ({
                let frame = record_frame(
                    varint(0nat) + key@,
                    Seq::<u8>::empty(),
                    LogRecordType::DELETED,
                );
                if old(self).spec_active().off() + frame.len() <= old(
                    self,
                ).spec_options().data_file_size {
                    &&& final(self).active_id() == old(self).active_id()
                    &&& final(self).older_views() == old(self).older_views()
                    &&& final(self).spec_active().data() == old(self).spec_active().data() + frame
                } else {
                    &&& final(self).active_id() == old(self).active_id() + 1
                    &&& final(self).older_views() == old(self).older_views().push(
                        (old(self).active_id(), old(self).spec_active().data()),
                    )
                    &&& final(self).spec_active().data() == frame
                }
            }),
    {
        if key.is_empty() {
            return Err(Errors::KeyIsEmpty);
        }
        let ghost pre = *old(self);
        let ghost k = key@;
        let probe = crate::util::clone_bytes(&key);
        if self.indexer.get(probe).is_none() {
            return Ok(());
        }
        let framed = crate::batch::log_record_key_with_seq(
            &key,
            crate::batch::NON_TRANSACTION_SEQ_NO,
        );
        proof {
            lemma_varint_len(0nat);
        }
        let record = LogRecord { key: framed, value: Vec::new(), rec_type: LogRecordType::DELETED };
        let pos_taken = match self.append_log_record(&record) {
            Ok(p) => p,
            Err(e) => {
                proof {
                    assert(false);
                }
                return Err(e);
            },
        };
        let ghost mid = *self;
        let ok = self.indexer.delete(key);
        if !ok {
            proof {
                assert(false);
            }
            return Err(Errors::IndexUpdateFailed);
        }
        proof {
            self.lemma_after_index_remove(pre, mid, k);
            assert(self.kv() =~= pre.kv().remove(k));
            if pre.durable() {
                crate::batch::lemma_key_framing_round_trip(k, 0);
                crate::data::varint::lemma_varint_len(0nat);
                assert(pre.spec_active().off() == pre.spec_active().data().len());
                lemma_durable_append(pre, mid, record@, pos_taken);
                let st = recover(pre.all_file_views())->Some_0;
                assert(replay_step(st, record@, pos_taken) is Some);
                let st2 = replay_step(st, record@, pos_taken)->Some_0;
                assert(st2.index == st.index.remove(k));
                assert(self.all_file_views() == mid.all_file_views());
                assert(self.durable());
            }
        }
        Ok(())
    }

    /// The batch sequence counter: the number the engine hands the next
    /// batch, taken from the largest one recovery saw.
    pub fn get_seq_no(&self) -> (r: u64)
        ensures
            r == self.spec_seq_no(),
    {
        self.seq_no
    }

    /// The id of the file the next append lands in, before any rollover.
    pub fn active_file_id(&self) -> (r: u32)
        ensures
            r == self.active_id(),
    {
        self.active_file.get_file_id()
    }

    /// Whether the directory holds `key`, and where its record sits.
    pub(crate) fn indexer_get(&self, key: Vec<u8>) -> (r: Option<LogRecordPos>)
        requires
            self.spec_indexer().wf(),
        ensures
            r is Some <==> self.kv().dom().contains(key@),
    {
        self.indexer.get(key)
    }

    /// Forces the active file's bytes down to its store.
    pub fn sync(&self) -> (r: Result<(), Errors>)
        ensures
            r is Ok,
    {
        self.active_file.sync()
    }

    /// Closing the engine syncs the active file; the engine owns no other
    /// resource that outlives it.
    pub fn close(&self) -> (r: Result<(), Errors>)
        ensures
            r is Ok,
    {
        self.sync()
    }

    /// After an append and a directory insert for `k`, the engine is whole
    /// again: the new entry points at the fresh record, the old entries still
    /// point at theirs.
    proof fn lemma_after_index_update(
        self,
        pre: Engine,
        mid: Engine,
        k: Seq<u8>,
        pos: LogRecordPos,
        rec: LogRecordView,
    )
        requires
            pre.wf(),
            Engine::extends(pre, mid),
            mid.files_wf(),
            mid.spec_indexer() == pre.spec_indexer(),
            mid.has_file(pos.file_id),
            parse_frame(mid.file_data(pos.file_id), pos.offset as int) matches
                ParsedRecord::Valid { rec: r0, size } && r0 == rec,
            rec.rec_type == LogRecordType::NORMAL,
            parse_varint(rec.key, 0) matches Some(sp) && rec.key.skip(sp.1) == k,
            self.spec_active() == mid.spec_active(),
            self.spec_older() == mid.spec_older(),
            self.spec_options() == mid.spec_options(),
            self.spec_indexer().wf(),
            self.spec_indexer().as_map() == pre.spec_indexer().as_map().insert(k, pos),
        ensures
            self.wf(),
            Engine::extends(pre, self),
            self.kv() == pre.kv().insert(k, rec.value),
    {
        assert(self.older_views() == mid.older_views());
        assert forall|fid: u32| #[trigger] pre.has_file(fid) implies self.has_file(fid)
            && pre.file_data(fid).len() <= self.file_data(fid).len() && self.file_data(
            fid,
        ).subrange(0, pre.file_data(fid).len() as int) == pre.file_data(fid) by {
            assert(mid.has_file(fid));
            assert(self.has_file(fid) == mid.has_file(fid));
            assert(self.file_data(fid) == mid.file_data(fid));
        }
        assert forall|k2: Seq<u8>| self.spec_indexer().as_map().dom().contains(k2) implies
            self.valid_pos(#[trigger] self.spec_indexer().as_map()[k2], k2) by {
            if k2 == k {
                assert(self.file_data(pos.file_id) == mid.file_data(pos.file_id));
                assert(self.has_file(pos.file_id) == mid.has_file(pos.file_id));
            } else {
                let p2 = pre.spec_indexer().as_map()[k2];
                lemma_valid_pos_extends(pre, self, p2, k2);
            }
        }
        assert(self.kv() =~= pre.kv().insert(k, rec.value)) by {
            assert forall|k2: Seq<u8>| self.kv().dom().contains(k2) && k2 != k implies
                self.kv()[k2] == pre.kv()[k2] by {
                let p2 = pre.spec_indexer().as_map()[k2];
                lemma_valid_pos_extends(pre, self, p2, k2);
            }
            assert(self.kv()[k] == rec.value) by {
                assert(self.file_data(pos.file_id) == mid.file_data(pos.file_id));
            }
        }
    }

    /// After an append and a directory removal of `k`, the engine is whole
    /// again and the store holds everything but `k`.
    proof fn lemma_after_index_remove(self, pre: Engine, mid: Engine, k: Seq<u8>)
        requires
            pre.wf(),
            Engine::extends(pre, mid),
            mid.files_wf(),
            mid.spec_indexer() == pre.spec_indexer(),
            self.spec_active() == mid.spec_active(),
            self.spec_older() == mid.spec_older(),
            self.spec_options() == mid.spec_options(),
            self.spec_indexer().wf(),
            self.spec_indexer().as_map() == pre.spec_indexer().as_map().remove(k),
        ensures
            self.wf(),
            Engine::extends(pre, self),
            self.kv() == pre.kv().remove(k),
    {
        assert(self.older_views() == mid.older_views());
        assert forall|fid: u32| #[trigger] pre.has_file(fid) implies self.has_file(fid)
            && pre.file_data(fid).len() <= self.file_data(fid).len() && self.file_data(
            fid,
        ).subrange(0, pre.file_data(fid).len() as int) == pre.file_data(fid) by {
            assert(mid.has_file(fid));
            assert(self.has_file(fid) == mid.has_file(fid));
            assert(self.file_data(fid) == mid.file_data(fid));
        }
        assert forall|k2: Seq<u8>| self.spec_indexer().as_map().dom().contains(k2) implies
            self.valid_pos(#[trigger] self.spec_indexer().as_map()[k2], k2) by {
            let p2 = pre.spec_indexer().as_map()[k2];
            lemma_valid_pos_extends(pre, self, p2, k2);
        }
        assert(self.kv() =~= pre.kv().remove(k)) by {
            assert forall|k2: Seq<u8>| self.kv().dom().contains(k2) implies self.kv()[k2]
                == pre.kv()[k2] by {
                let p2 = pre.spec_indexer().as_map()[k2];
                lemma_valid_pos_extends(pre, self, p2, k2);
            }
        }
    }
}

/// One buffered record of a batch whose terminator has not been seen yet.
struct TransactionRecord {
    record: LogRecord,
    pos: LogRecordPos,
}

/// What replaying a log prefix has produced so far: the directory being
/// rebuilt, the buffered records of batches still missing their terminator,
/// grouped by sequence number, and the largest sequence number seen.
pub struct ReplayState {
    pub index: Map<Seq<u8>, LogRecordPos>,
    pub staged: Seq<(nat, Seq<(Seq<u8>, LogRecordType, LogRecordPos)>)>,
    pub max_seq: nat,
}

/// Recovery starts from nothing.
pub open spec fn replay_init() -> ReplayState {
    ReplayState { index: Map::empty(), staged: Seq::empty(), max_seq: 0 }
}

/// One effective record applied to the directory: a live record points its
/// key here, a tombstone removes it, a terminator alone changes nothing.
pub open spec fn apply_one(
    index: Map<Seq<u8>, LogRecordPos>,
    k: Seq<u8>,
    t: LogRecordType,
    pos: LogRecordPos,
) -> Map<Seq<u8>, LogRecordPos> {
    match t {
        LogRecordType::NORMAL => index.insert(k, pos),
        LogRecordType::DELETED => index.remove(k),
        LogRecordType::TXN_FINISHED => index,
    }
}

/// A committed batch's records applied to the directory in the order they
/// were buffered.
pub open spec fn apply_staged(
    index: Map<Seq<u8>, LogRecordPos>,
    list: Seq<(Seq<u8>, LogRecordType, LogRecordPos)>,
) -> Map<Seq<u8>, LogRecordPos>
    decreases list.len(),
{
    if list.len() == 0 {
        index
    } else {
        apply_staged(apply_one(index, list[0].0, list[0].1, list[0].2), list.skip(1))
    }
}

/// The first buffer slot holding batch `sn`, or -1 when none does.
pub open spec fn staged_find(
    staged: Seq<(nat, Seq<(Seq<u8>, LogRecordType, LogRecordPos)>)>,
    sn: nat,
) -> int
    decreases staged.len(),
{
    if staged.len() == 0 {
        -1
    } else if staged[0].0 == sn {
        0
    } else {
        let r = staged_find(staged.skip(1), sn);
        if r < 0 {
            -1
        } else {
            r + 1
        }
    }
}

pub proof fn lemma_staged_find(
    staged: Seq<(nat, Seq<(Seq<u8>, LogRecordType, LogRecordPos)>)>,
    sn: nat,
)
    ensures
        staged_find(staged, sn) == -1 ==> forall|q: int|
            0 <= q < staged.len() ==> (#[trigger] staged[q]).0 != sn,
        staged_find(staged, sn) >= 0 ==> 0 <= staged_find(staged, sn) < staged.len() && staged[
            staged_find(staged, sn)].0 == sn && forall|q: int|
            0 <= q < staged_find(staged, sn) ==> (#[trigger] staged[q]).0 != sn,
    decreases staged.len(),
{
    if staged.len() > 0 && staged[0].0 != sn {
        lemma_staged_find(staged.skip(1), sn);
        assert forall|q: int| 1 <= q < staged.len() implies staged[q] == staged.skip(1)[q - 1] by {}
    }
}

/// Replaying one record: its framed key is split into sequence number and
/// user key; a non-batch record lands in the directory at once, a batch
/// record is buffered, and a terminator applies its batch's buffer. A record
/// whose framed key is malformed stops recovery.
pub open spec fn replay_step(st: ReplayState, rec: LogRecordView, pos: LogRecordPos) -> Option<
    ReplayState,
> {
    match parse_varint(rec.key, 0) {
        None => None,
        Some(sp) => {
            if sp.0 > u64::MAX {
                None
            } else {
                let sn = sp.0;
                let user_key = rec.key.skip(sp.1);
                let mx = if sn > st.max_seq {
                    sn
                } else {
                    st.max_seq
                };
                if sn == 0 {
                    Some(
                        ReplayState {
                            index: apply_one(st.index, user_key, rec.rec_type, pos),
                            staged: st.staged,
                            max_seq: mx,
                        },
                    )
                } else if rec.rec_type == LogRecordType::TXN_FINISHED {
                    let i = staged_find(st.staged, sn);
                    if i < 0 {
                        Some(ReplayState { index: st.index, staged: st.staged, max_seq: mx })
                    } else {
                        Some(
                            ReplayState {
                                index: apply_staged(st.index, st.staged[i].1),
                                staged: st.staged.remove(i),
                                max_seq: mx,
                            },
                        )
                    }
                } else {
                    let i = staged_find(st.staged, sn);
                    if i < 0 {
                        Some(
                            ReplayState {
                                index: st.index,
                                staged: st.staged.push(
                                    (sn, seq![(user_key, rec.rec_type, pos)]),
                                ),
                                max_seq: mx,
                            },
                        )
                    } else {
                        Some(
                            ReplayState {
                                index: st.index,
                                staged: st.staged.update(
                                    i,
                                    (sn, st.staged[i].1.push((user_key, rec.rec_type, pos))),
                                ),
                                max_seq: mx,
                            },
                        )
                    }
                }
            }
        },
    }
}

/// Replaying a run of records in order, stopping at the first malformed one.
pub open spec fn replay_records(
    st: ReplayState,
    recs: Seq<(LogRecordView, LogRecordPos)>,
) -> Option<ReplayState>
    decreases recs.len(),
{
    if recs.len() == 0 {
        Some(st)
    } else {
        match replay_step(st, recs[0].0, recs[0].1) {
            None => None,
            Some(st2) => replay_records(st2, recs.skip(1)),
        }
    }
}

pub proof fn lemma_replay_append(
    st: ReplayState,
    a: Seq<(LogRecordView, LogRecordPos)>,
    b: Seq<(LogRecordView, LogRecordPos)>,
)
    ensures
        replay_records(st, a + b) == (match replay_records(st, a) {
            None => None,
            Some(m) => replay_records(m, b),
        }),
    decreases a.len(),
{
    if a.len() == 0 {
        assert(a + b =~= b);
    } else {
        assert((a + b)[0] == a[0]);
        match replay_step(st, a[0].0, a[0].1) {
            None => {},
            Some(st2) => {
                lemma_replay_append(st2, a.skip(1), b);
                assert((a + b).skip(1) =~= a.skip(1) + b);
            },
        }
    }
}

/// The records framed one after another in a file from `off` on, each with
/// its position, and the offset of the end-of-file sentinel that stops the
/// read. `None` when a malformed frame is hit first.
pub open spec fn scan_file(fid: u32, data: Seq<u8>, off: int) -> Option<
    (Seq<(LogRecordView, LogRecordPos)>, int),
>
    decreases data.len() - off,
{
    match parse_frame(data, off) {
        ParsedRecord::Eof => Some((Seq::empty(), off)),
        ParsedRecord::Corrupt => None,
        ParsedRecord::Valid { rec, size } => {
            if off < 0 || size < 7 || off + size > data.len() {
                None
            } else {
                match scan_file(fid, data, off + size) {
                    None => None,
                    Some(rest) => Some(
                        (
                            seq![(rec, LogRecordPos { file_id: fid, offset: off as u64 })]
                                + rest.0,
                            rest.1,
                        ),
                    ),
                }
            }
        },
    }
}

/// Every record a scan yields sits wholly between its own offset and the
/// end the scan stopped at, and reads back from the file as itself.
pub proof fn lemma_scan_file_positions(fid: u32, data: Seq<u8>, off: int)
    requires
        scan_file(fid, data, off) is Some,
        0 <= off <= data.len(),
        data.len() <= u64::MAX,
    ensures
        ({
            let (recs, end) = scan_file(fid, data, off)->Some_0;
            &&& off <= end <= data.len()
            &&& forall|t: int|
                0 <= t < recs.len() ==> {
                    let pos = (#[trigger] recs[t]).1;
                    &&& pos.file_id == fid
                    &&& off <= pos.offset
                    &&& (parse_frame(data, pos.offset as int) matches ParsedRecord::Valid {
                        rec,
                        size,
                    } && rec == recs[t].0 && pos.offset + size <= end)
                }
        }),
    decreases data.len() - off,
{
    let (recs, end) = scan_file(fid, data, off)->Some_0;
    match parse_frame(data, off) {
        ParsedRecord::Eof => {},
        ParsedRecord::Corrupt => {},
        ParsedRecord::Valid { rec, size } => {
            crate::data::log_record::lemma_parse_valid_size_bounds(data, off);
            lemma_scan_file_positions(fid, data, off + size);
            let rest = scan_file(fid, data, off + size)->Some_0;
            assert forall|t: int| 0 <= t < recs.len() implies {
                let pos = (#[trigger] recs[t]).1;
                &&& pos.file_id == fid
                &&& off <= pos.offset
                &&& (parse_frame(data, pos.offset as int) matches ParsedRecord::Valid {
                    rec: r2,
                    size: s2,
                } && r2 == recs[t].0 && pos.offset + s2 <= end)
            } by {
                if t > 0 {
                    assert(recs[t] == rest.0[t - 1]);
                }
            }
        },
    }
}

/// The records of a run of files, in file order then offset order.
pub open spec fn scan_files(files: Seq<(u32, Seq<u8>)>) -> Option<
    Seq<(LogRecordView, LogRecordPos)>,
>
    decreases files.len(),
{
    if files.len() == 0 {
        Some(Seq::empty())
    } else {
        match scan_file(files[0].0, files[0].1, 0) {
            None => None,
            Some(r0) => match scan_files(files.skip(1)) {
                None => None,
                Some(rest) => Some(r0.0 + rest),
            },
        }
    }
}

pub proof fn lemma_scan_files_append(a: Seq<(u32, Seq<u8>)>, b: Seq<(u32, Seq<u8>)>)
    ensures
        scan_files(a + b) == (match scan_files(a) {
            None => None,
            Some(ra) => match scan_files(b) {
                None => None,
                Some(rb) => Some(ra + rb),
            },
        }),
    decreases a.len(),
{
    if a.len() == 0 {
        assert(a + b =~= b);
        match scan_files(b) {
            None => {},
            Some(rb) => {
                assert(Seq::<(LogRecordView, LogRecordPos)>::empty() + rb =~= rb);
            },
        }
    } else {
        assert((a + b)[0] == a[0]);
        assert((a + b).skip(1) =~= a.skip(1) + b);
        lemma_scan_files_append(a.skip(1), b);
        match scan_file(a[0].0, a[0].1, 0) {
            None => {},
            Some(r0) => {
                match scan_files(a.skip(1)) {
                    None => {},
                    Some(ra1) => {
                        match scan_files(b) {
                            None => {},
                            Some(rb) => {
                                assert(r0.0 + (ra1 + rb) =~= (r0.0 + ra1) + rb);
                            },
                        }
                    },
                }
            },
        }
    }
}

/// What recovery computes from a run of files: the scan of their records,
/// then the replay of those records.
pub open spec fn recover(files: Seq<(u32, Seq<u8>)>) -> Option<ReplayState> {
    match scan_files(files) {
        None => None,
        Some(recs) => replay_records(replay_init(), recs),
    }
}

impl Engine {
    /// The engine's files in replay order: the retired ones ascending, the
    /// active one last.
    pub open spec fn all_file_views(self) -> Seq<(u32, Seq<u8>)> {
        self.older_views().push((self.active_id(), self.spec_active().data()))
    }
}

/// The content of one buffered batch record.
spec fn txn_view(t: TransactionRecord) -> (Seq<u8>, LogRecordType, LogRecordPos) {
    (t.record.key@, t.record.rec_type, t.pos)
}

/// The abstract batch buffer a staging vector stands for.
spec fn staged_view(s: Seq<(u64, Vec<TransactionRecord>)>) -> Seq<
    (nat, Seq<(Seq<u8>, LogRecordType, LogRecordPos)>),
> {
    s.map_values(
        |p: (u64, Vec<TransactionRecord>)|
            (p.0 as nat, p.1@.map_values(|t: TransactionRecord| txn_view(t))),
    )
}

proof fn lemma_staged_find_at(
    s: Seq<(nat, Seq<(Seq<u8>, LogRecordType, LogRecordPos)>)>,
    sn: nat,
    i: int,
)
    requires
        0 <= i < s.len(),
        s[i].0 == sn,
        forall|q: int| 0 <= q < i ==> (#[trigger] s[q]).0 != sn,
    ensures
        staged_find(s, sn) == i,
{
    lemma_staged_find(s, sn);
    let sf = staged_find(s, sn);
    if sf == -1 {
        assert(s[i].0 != sn);
    } else {
        if sf < i {
            assert(s[sf].0 != sn);
        }
        if sf > i {
            assert(s[i].0 != sn);
        }
    }
}

proof fn lemma_staged_find_none(
    s: Seq<(nat, Seq<(Seq<u8>, LogRecordType, LogRecordPos)>)>,
    sn: nat,
)
    requires
        forall|q: int| 0 <= q < s.len() ==> (#[trigger] s[q]).0 != sn,
    ensures
        staged_find(s, sn) == -1,
{
    lemma_staged_find(s, sn);
    let sf = staged_find(s, sn);
    if sf >= 0 {
        assert(s[sf].0 != sn);
    }
}

/// Feeds one record just read from disk into the directory being rebuilt,
/// the batch buffer and the sequence counter, exactly as `replay_step` says.
#[verifier::rlimit(60)]
fn replay_apply(
    indexer: &mut Btree,
    staging: &mut Vec<(u64, Vec<TransactionRecord>)>,
    current_seq_no: &mut u64,
    record: LogRecord,
    pos: LogRecordPos,
) -> (r: Result<(), Errors>)
    requires
        old(indexer).wf(),
    ensures
        final(indexer).wf(),
        ({
            let st = ReplayState {
                index: old(indexer).as_map(),
                staged: staged_view(old(staging)@),
                max_seq: *old(current_seq_no) as nat,
            };
            match replay_step(st, record@, pos) {
                None => r == Err::<(), Errors>(Errors::DataDirectoryCorrupted),
                Some(st2) => r is Ok && final(indexer).as_map() == st2.index && staged_view(
                    final(staging)@,
                ) == st2.staged && *final(current_seq_no) == st2.max_seq,
            }
        }),
{
    let ghost st = ReplayState {
        index: indexer.as_map(),
        staged: staged_view(staging@),
        max_seq: *current_seq_no as nat,
    };
    let (real_key, sn) = match crate::batch::parse_log_record_key(&record.key) {
        None => {
            return Err(Errors::DataDirectoryCorrupted);
        },
        Some(x) => x,
    };
    if sn > *current_seq_no {
        *current_seq_no = sn;
    }
    if sn == 0 {
        match record.rec_type {
            LogRecordType::NORMAL => {
                indexer.put(real_key, pos);
            },
            LogRecordType::DELETED => {
                indexer.delete(real_key);
            },
            LogRecordType::TXN_FINISHED => {},
        }
        return Ok(());
    }
    let mut i: usize = 0;
    let mut found: bool = false;
    while i < staging.len() && !found
        invariant
            i <= staging@.len(),
            forall|q: int| 0 <= q < i ==> (#[trigger] staged_view(staging@)[q]).0 != sn as nat,
            found ==> i < staging@.len() && staged_view(staging@)[i as int].0 == sn as nat,
        decreases staging@.len() - i, (if found {
            0int
        } else {
            1int
        }),
    {
        proof {
            assert(staged_view(staging@)[i as int].0 == staging@[i as int].0 as nat);
        }
        if staging[i].0 == sn {
            found = true;
        } else {
            i = i + 1;
        }
    }
    proof {
        if found {
            lemma_staged_find_at(staged_view(staging@), sn as nat, i as int);
        } else {
            lemma_staged_find_none(staged_view(staging@), sn as nat);
        }
    }
    let is_fin = match record.rec_type {
        LogRecordType::TXN_FINISHED => true,
        _ => false,
    };
    if is_fin {
        if found {
            let ghost pre_staging = staging@;
            let (_slot_sn, list) = staging.remove(i);
            proof {
                assert(staged_view(staging@) =~= staged_view(pre_staging).remove(i as int));
                assert(list@.map_values(|t: TransactionRecord| txn_view(t)) == staged_view(
                    pre_staging,
                )[i as int].1);
            }
            let ghost start_map = indexer.as_map();
            let ghost lv = list@.map_values(|t: TransactionRecord| txn_view(t));
            proof {
                assert(lv.skip(0) =~= lv);
            }
            let mut j: usize = 0;
            while j < list.len()
                invariant
                    j <= list@.len(),
                    indexer.wf(),
                    lv == list@.map_values(|t: TransactionRecord| txn_view(t)),
                    apply_staged(start_map, lv) == apply_staged(indexer.as_map(), lv.skip(j as int)),
                decreases list@.len() - j,
            {
                proof {
                    assert(lv[j as int] == txn_view(list@[j as int]));
                    assert(lv.skip(j as int)[0] == lv[j as int]);
                    assert(lv.skip(j as int).skip(1) =~= lv.skip(j as int + 1));
                }
                let t_key = crate::util::clone_bytes(&list[j].record.key);
                let t_pos = list[j].pos;
                match list[j].record.rec_type {
                    LogRecordType::NORMAL => {
                        indexer.put(t_key, t_pos);
                    },
                    LogRecordType::DELETED => {
                        indexer.delete(t_key);
                    },
                    LogRecordType::TXN_FINISHED => {},
                }
                j = j + 1;
            }
            proof {
                assert(lv.skip(list@.len() as int) =~= Seq::<
                    (Seq<u8>, LogRecordType, LogRecordPos),
                >::empty());
            }
        }
        return Ok(());
    }
    let txn = TransactionRecord {
        record: LogRecord { key: real_key, value: record.value, rec_type: record.rec_type },
        pos,
    };
    if found {
        let ghost pre_staging = staging@;
        let (slot_sn, mut list) = staging.remove(i);
        let ghost pre_list = list@;
        let ghost tv = txn_view(txn);
        list.push(txn);
        staging.insert(i, (slot_sn, list));
        proof {
            assert(tv == (
                record@.key.skip(parse_varint(record@.key, 0)->Some_0.1),
                record.rec_type,
                pos,
            ));
            assert(list@.map_values(|t: TransactionRecord| txn_view(t)) =~= pre_list.map_values(
                |t: TransactionRecord| txn_view(t),
            ).push(tv));
            assert(pre_list.map_values(|t: TransactionRecord| txn_view(t)) == staged_view(
                pre_staging,
            )[i as int].1);
            assert(slot_sn == sn);
            assert(staged_view(staging@) =~~= staged_view(pre_staging).update(
                i as int,
                (sn as nat, staged_view(pre_staging)[i as int].1.push(tv)),
            ));
        }
    } else {
        let ghost tv = txn_view(txn);
        let mut list: Vec<TransactionRecord> = Vec::new();
        list.push(txn);
        staging.push((sn, list));
        proof {
            assert(tv == (
                record@.key.skip(parse_varint(record@.key, 0)->Some_0.1),
                record.rec_type,
                pos,
            ));
            assert(list@.map_values(|t: TransactionRecord| txn_view(t)) =~= seq![tv]);
            assert(staged_view(staging@) =~~= staged_view(old(staging)@).push((sn as nat, seq![tv])));
        }
    }
    Ok(())
}

impl Engine {
    /// A position that is valid now and, when it lies in the active file,
    /// wholly before `bound`: such a record survives truncating the active
    /// file at `bound`.
    pub open spec fn pos_ok(self, bound: int, pos: LogRecordPos, k: Seq<u8>) -> bool {
        &&& self.valid_pos(pos, k)
        &&& (pos.file_id == self.active_id() ==> pos.offset + parse_frame(
            self.file_data(pos.file_id),
            pos.offset as int,
        )->size <= bound)
    }

    /// A buffered batch record whose live entries would be safe to apply.
    pub open spec fn item_ok(
        self,
        bound: int,
        item: (Seq<u8>, LogRecordType, LogRecordPos),
    ) -> bool {
        item.1 == LogRecordType::NORMAL ==> self.pos_ok(bound, item.2, item.0)
    }

    pub open spec fn list_ok(
        self,
        bound: int,
        list: Seq<(Seq<u8>, LogRecordType, LogRecordPos)>,
    ) -> bool {
        forall|j: int| 0 <= j < list.len() ==> self.item_ok(bound, #[trigger] list[j])
    }

    /// Every directory entry and every buffered live batch record of a
    /// replay state points at a whole record, within `bound` for the active
    /// file.
    pub open spec fn state_ok(self, bound: int, st: ReplayState) -> bool {
        &&& (forall|k: Seq<u8>|
            st.index.dom().contains(k) ==> self.pos_ok(bound, #[trigger] st.index[k], k))
        &&& (forall|i: int|
            0 <= i < st.staged.len() ==> self.list_ok(bound, (#[trigger] st.staged[i]).1))
    }

    /// Whether one scanned record reads back whole from this engine's files,
    /// within `bound` when it lies in the active file.
    pub open spec fn rec_incoming_ok(
        self,
        bound: int,
        rp: (LogRecordView, LogRecordPos),
    ) -> bool {
        &&& self.has_file(rp.1.file_id)
        &&& (parse_frame(self.file_data(rp.1.file_id), rp.1.offset as int) matches
            ParsedRecord::Valid { rec, size } && rec == rp.0 && (rp.1.file_id == self.active_id()
            ==> rp.1.offset + size <= bound))
    }
}

proof fn lemma_state_ok_mono(e: Engine, b1: int, b2: int, st: ReplayState)
    requires
        e.state_ok(b1, st),
        b1 <= b2,
    ensures
        e.state_ok(b2, st),
{
    assert forall|k: Seq<u8>| st.index.dom().contains(k) implies e.pos_ok(
        b2,
        #[trigger] st.index[k],
        k,
    ) by {
        assert(e.pos_ok(b1, st.index[k], k));
    }
    assert forall|i: int| 0 <= i < st.staged.len() implies e.list_ok(
        b2,
        (#[trigger] st.staged[i]).1,
    ) by {
        assert(e.list_ok(b1, st.staged[i].1));
        assert forall|j: int| 0 <= j < st.staged[i].1.len() implies e.item_ok(
            b2,
            #[trigger] st.staged[i].1[j],
        ) by {
            assert(e.item_ok(b1, st.staged[i].1[j]));
        }
    }
}

/// Applying safe buffered records to a safe directory yields a safe
/// directory.
proof fn lemma_apply_staged_ok(
    e: Engine,
    bound: int,
    index: Map<Seq<u8>, LogRecordPos>,
    list: Seq<(Seq<u8>, LogRecordType, LogRecordPos)>,
)
    requires
        forall|k: Seq<u8>| index.dom().contains(k) ==> e.pos_ok(bound, #[trigger] index[k], k),
        e.list_ok(bound, list),
    ensures
        forall|k: Seq<u8>|
            apply_staged(index, list).dom().contains(k) ==> e.pos_ok(
                bound,
                #[trigger] apply_staged(index, list)[k],
                k,
            ),
    decreases list.len(),
{
    if list.len() > 0 {
        let item = list[0];
        let index2 = apply_one(index, item.0, item.1, item.2);
        assert(e.item_ok(bound, list[0]));
        assert forall|k: Seq<u8>| index2.dom().contains(k) implies e.pos_ok(
            bound,
            #[trigger] index2[k],
            k,
        ) by {
            if item.1 == LogRecordType::NORMAL && k == item.0 {
            } else {
            }
        }
        assert forall|j: int| 0 <= j < list.skip(1).len() implies e.item_ok(
            bound,
            #[trigger] list.skip(1)[j],
        ) by {
            assert(list.skip(1)[j] == list[j + 1]);
            assert(e.item_ok(bound, list[j + 1]));
        }
        lemma_apply_staged_ok(e, bound, index2, list.skip(1));
        assert(apply_staged(index, list) == apply_staged(index2, list.skip(1)));
    }
}

/// Replaying one safe record keeps the replay state safe.
proof fn lemma_replay_step_ok(
    e: Engine,
    bound: int,
    st: ReplayState,
    rec: LogRecordView,
    pos: LogRecordPos,
)
    requires
        e.state_ok(bound, st),
        replay_step(st, rec, pos) is Some,
        e.rec_incoming_ok(bound, (rec, pos)),
    ensures
        e.state_ok(bound, replay_step(st, rec, pos)->Some_0),
{
    let st2 = replay_step(st, rec, pos)->Some_0;
    let sp = parse_varint(rec.key, 0)->Some_0;
    let sn = sp.0;
    let user_key = rec.key.skip(sp.1);
    if sn == 0 {
        assert forall|k: Seq<u8>| st2.index.dom().contains(k) implies e.pos_ok(
            bound,
            #[trigger] st2.index[k],
            k,
        ) by {
            if rec.rec_type == LogRecordType::NORMAL && k == user_key {
            } else {
                assert(st.index.dom().contains(k));
            }
        }
    } else if rec.rec_type == LogRecordType::TXN_FINISHED {
        let i = staged_find(st.staged, sn);
        if i >= 0 {
            lemma_staged_find(st.staged, sn);
            assert(e.list_ok(bound, st.staged[i].1));
            lemma_apply_staged_ok(e, bound, st.index, st.staged[i].1);
            assert forall|q: int| 0 <= q < st2.staged.len() implies e.list_ok(
                bound,
                (#[trigger] st2.staged[q]).1,
            ) by {
                if q < i {
                    assert(st2.staged[q] == st.staged[q]);
                } else {
                    assert(st2.staged[q] == st.staged[q + 1]);
                }
            }
        }
    } else {
        let i = staged_find(st.staged, sn);
        let item = (user_key, rec.rec_type, pos);
        assert(e.item_ok(bound, item));
        if i < 0 {
            assert forall|q: int| 0 <= q < st2.staged.len() implies e.list_ok(
                bound,
                (#[trigger] st2.staged[q]).1,
            ) by {
                if q < st.staged.len() {
                    assert(st2.staged[q] == st.staged[q]);
                } else {
                    assert(st2.staged[q].1 == seq![item]);
                    assert forall|j: int| 0 <= j < st2.staged[q].1.len() implies e.item_ok(
                        bound,
                        #[trigger] st2.staged[q].1[j],
                    ) by {
                        assert(st2.staged[q].1[j] == item);
                    }
                }
            }
        } else {
            lemma_staged_find(st.staged, sn);
            assert forall|q: int| 0 <= q < st2.staged.len() implies e.list_ok(
                bound,
                (#[trigger] st2.staged[q]).1,
            ) by {
                if q != i {
                    assert(st2.staged[q] == st.staged[q]);
                } else {
                    let l2 = st2.staged[q].1;
                    assert(l2 == st.staged[i].1.push(item));
                    assert(e.list_ok(bound, st.staged[i].1));
                    assert forall|j: int| 0 <= j < l2.len() implies e.item_ok(
                        bound,
                        #[trigger] l2[j],
                    ) by {
                        if j < l2.len() - 1 {
                            assert(l2[j] == st.staged[i].1[j]);
                            assert(e.item_ok(bound, st.staged[i].1[j]));
                        } else {
                            assert(l2[j] == item);
                        }
                    }
                }
            }
        }
    }
}

/// Replaying a run of safe records keeps the replay state safe.
proof fn lemma_replay_records_ok(
    e: Engine,
    bound: int,
    st: ReplayState,
    recs: Seq<(LogRecordView, LogRecordPos)>,
)
    requires
        e.state_ok(bound, st),
        replay_records(st, recs) is Some,
        forall|t: int| 0 <= t < recs.len() ==> e.rec_incoming_ok(bound, #[trigger] recs[t]),
    ensures
        e.state_ok(bound, replay_records(st, recs)->Some_0),
    decreases recs.len(),
{
    if recs.len() > 0 {
        let st2 = replay_step(st, recs[0].0, recs[0].1)->Some_0;
        lemma_replay_step_ok(e, bound, st, recs[0].0, recs[0].1);
        assert forall|t: int| 0 <= t < recs.skip(1).len() implies e.rec_incoming_ok(
            bound,
            #[trigger] recs.skip(1)[t],
        ) by {
            assert(recs.skip(1)[t] == recs[t + 1]);
            assert(e.rec_incoming_ok(bound, recs[t + 1]));
        }
        lemma_replay_records_ok(e, bound, st2, recs.skip(1));
    }
}

/// Replays every record of one data file in offset order, feeding each into
/// the directory, the batch buffer and the sequence counter, and hands back
/// the offset of the end-of-file sentinel.
#[verifier::rlimit(100)]
#[verifier::spinoff_prover]
fn replay_file(
    file: &DataFile,
    indexer: &mut Btree,
    staging: &mut Vec<(u64, Vec<TransactionRecord>)>,
    current_seq_no: &mut u64,
) -> (r: Result<u64, Errors>)
    requires
        old(indexer).wf(),
    ensures
        final(indexer).wf(),
        ({
            let st0 = ReplayState {
                index: old(indexer).as_map(),
                staged: staged_view(old(staging)@),
                max_seq: *old(current_seq_no) as nat,
            };
            &&& (match scan_file(file.id(), file.data(), 0) {
                None => r is Err,
                Some(p) => match replay_records(st0, p.0) {
                    None => r == Err::<u64, Errors>(Errors::DataDirectoryCorrupted),
                    Some(st2) => {
                        &&& r == Ok::<u64, Errors>(p.1 as u64)
                        &&& final(indexer).as_map() == st2.index
                        &&& staged_view(final(staging)@) == st2.staged
                        &&& *final(current_seq_no) == st2.max_seq
                    },
                },
            })
            &&& (r is Err ==> (r == Err::<u64, Errors>(Errors::InvalidLogRecordCrc) || r
                == Err::<u64, Errors>(Errors::DataDirectoryCorrupted)) && (match scan_file(
                file.id(),
                file.data(),
                0,
            ) {
                None => true,
                Some(p) => replay_records(st0, p.0) is None,
            }))
            &&& (r == Err::<u64, Errors>(Errors::InvalidLogRecordCrc) ==> scan_file(
                file.id(),
                file.data(),
                0,
            ) is None)
        }),
{
    let ghost fid = file.id();
    let ghost d = file.data();
    let ghost st0 = ReplayState {
        index: indexer.as_map(),
        staged: staged_view(staging@),
        max_seq: *current_seq_no as nat,
    };
    let flen = file.data_len();
    proof {
        assert(d.len() == flen <= u64::MAX);
    }
    let mut offset: u64 = 0;
    let ghost mut fdone: Seq<(LogRecordView, LogRecordPos)> = Seq::empty();
    proof {
        assert(fdone + Seq::<(LogRecordView, LogRecordPos)>::empty() =~= fdone);
    }
    loop
        invariant
            indexer.wf(),
            offset <= d.len(),
            d == file.data(),
            fid == file.id(),
            d.len() <= u64::MAX,
            (match scan_file(fid, d, offset as int) {
                None => scan_file(fid, d, 0) is None,
                Some(p) => scan_file(fid, d, 0) == Some((fdone + p.0, p.1)),
            }),
            replay_records(st0, fdone) == Some(
                ReplayState {
                    index: indexer.as_map(),
                    staged: staged_view(staging@),
                    max_seq: *current_seq_no as nat,
                },
            ),
            st0 == (ReplayState {
                index: old(indexer).as_map(),
                staged: staged_view(old(staging)@),
                max_seq: *old(current_seq_no) as nat,
            }),
        ensures
            indexer.wf(),
            scan_file(fid, d, 0) == Some((fdone, offset as int)),
            replay_records(st0, fdone) == Some(
                ReplayState {
                    index: indexer.as_map(),
                    staged: staged_view(staging@),
                    max_seq: *current_seq_no as nat,
                },
            ),
            st0 == (ReplayState {
                index: old(indexer).as_map(),
                staged: staged_view(old(staging)@),
                max_seq: *old(current_seq_no) as nat,
            }),
        decreases d.len() - offset,
    {
        let ghost cur = ReplayState {
            index: indexer.as_map(),
            staged: staged_view(staging@),
            max_seq: *current_seq_no as nat,
        };
        let res = file.read_log_record(offset);
        match res {
            Err(e) => {
                if e == Errors::ReadDataFileEOF {
                    proof {
                        assert(scan_file(fid, d, offset as int) == Some(
                            (Seq::<(LogRecordView, LogRecordPos)>::empty(), offset as int),
                        ));
                        assert(fdone + Seq::<(LogRecordView, LogRecordPos)>::empty() =~= fdone);
                    }
                    break ;
                }
                proof {
                    assert(e == Errors::InvalidLogRecordCrc);
                    assert(scan_file(fid, d, offset as int) is None);
                    assert(scan_file(fid, d, 0) is None);
                }
                return Err(e);
            },
            Ok(rlr) => {
                let ghost rv = rlr.record@;
                let size = rlr.size;
                let pos = LogRecordPos { file_id: file.get_file_id(), offset };
                proof {
                    crate::data::log_record::lemma_parse_valid_size_bounds(d, offset as int);
                }
                let apply_res = replay_apply(
                    indexer,
                    staging,
                    current_seq_no,
                    rlr.record,
                    pos,
                );
                proof {
                    lemma_replay_append(st0, fdone, seq![(rv, pos)]);
                    assert(seq![(rv, pos)].skip(1) =~= Seq::<
                        (LogRecordView, LogRecordPos),
                    >::empty());
                    match replay_step(cur, rv, pos) {
                        None => {
                            assert(replay_records(cur, seq![(rv, pos)]) is None);
                        },
                        Some(stx) => {
                            assert(replay_records(cur, seq![(rv, pos)]) == replay_records(
                                stx,
                                seq![(rv, pos)].skip(1),
                            ));
                            assert(replay_records(
                                stx,
                                Seq::<(LogRecordView, LogRecordPos)>::empty(),
                            ) == Some(stx));
                        },
                    }
                    assert(replay_records(cur, seq![(rv, pos)]) == replay_step(cur, rv, pos));
                }
                match apply_res {
                    Err(e2) => {
                        proof {
                            assert(replay_step(cur, rv, pos) is None);
                            assert(replay_records(st0, fdone + seq![(rv, pos)]) is None);
                            match scan_file(fid, d, 0) {
                                None => {},
                                Some(p) => {
                                    assert(scan_file(fid, d, offset as int) is Some);
                                    let rest = scan_file(fid, d, offset + size);
                                    assert(rest is Some);
                                    let restp = rest->Some_0;
                                    assert(p.0 == fdone + (seq![(rv, pos)] + restp.0));
                                    assert(p.0 =~= (fdone + seq![(rv, pos)]) + restp.0);
                                    lemma_replay_append(
                                        st0,
                                        fdone + seq![(rv, pos)],
                                        restp.0,
                                    );
                                },
                            }
                        }
                        return Err(e2);
                    },
                    Ok(()) => {
                        proof {
                            let fdone2 = fdone + seq![(rv, pos)];
                            assert(replay_records(st0, fdone2) == replay_step(cur, rv, pos));
                            match scan_file(fid, d, offset + size) {
                                None => {},
                                Some(p2) => {
                                    assert(scan_file(fid, d, offset as int) == Some(
                                        (seq![(rv, pos)] + p2.0, p2.1),
                                    ));
                                    assert(fdone + (seq![(rv, pos)] + p2.0) =~= fdone2 + p2.0);
                                },
                            }
                            fdone = fdone2;
                        }
                        offset = offset + size;
                    },
                }
            },
        }
    }
    Ok(offset)
}

impl Engine {
    /// Rebuilds the key directory by replaying every data file in ascending
    /// id order, the active file last, then parks the active file's cursor at
    /// the end of its last whole record, discarding what follows it, and sets
    /// the sequence counter to the largest number seen.
    #[verifier::rlimit(100)]
    #[verifier::spinoff_prover]
    fn load_index_from_data_files(&mut self) -> (r: Result<(), Errors>)
        requires
            old(self).files_wf(),
            old(self).spec_indexer().wf(),
            old(self).spec_indexer().as_map() == Map::<Seq<u8>, LogRecordPos>::empty(),
        ensures
            final(self).spec_options() == old(self).spec_options(),
            final(self).older_views() == old(self).older_views(),
            final(self).active_id() == old(self).active_id(),
            final(self).files_wf(),
            final(self).spec_indexer().wf(),
            r == Err::<(), Errors>(Errors::InvalidLogRecordCrc) ==> scan_files(
                old(self).all_file_views(),
            ) is None,
            match recover(old(self).all_file_views()) {
                None => r is Err && (r == Err::<(), Errors>(Errors::InvalidLogRecordCrc) || r
                    == Err::<(), Errors>(Errors::DataDirectoryCorrupted)),
                Some(st) => {
                    &&& r is Ok
                    &&& final(self).spec_indexer().as_map() == st.index
                    &&& final(self).spec_seq_no() == st.max_seq
                    &&& final(self).wf()
                    &&& final(self).spec_active().data() == old(self).spec_active().data().subrange(
                        0,
                        scan_file(
                            old(self).active_id(),
                            old(self).spec_active().data(),
                            0,
                        )->Some_0.1,
                    )
                },
            },
    {
        let ghost pre = *old(self);
        let ghost all = pre.all_file_views();
        let mut staging: Vec<(u64, Vec<TransactionRecord>)> = Vec::new();
        let mut current_seq_no: u64 = 0;
        let ghost mut done: Seq<(LogRecordView, LogRecordPos)> = Seq::empty();
        let n_older = self.older_files.len();
        let mut fi: usize = 0;
        proof {
            assert(staged_view(staging@) =~= Seq::<
                (nat, Seq<(Seq<u8>, LogRecordType, LogRecordPos)>),
            >::empty());
            assert(all.take(0) =~= Seq::<(u32, Seq<u8>)>::empty());
            assert(all.len() == n_older + 1);
            assert(all[n_older as int] == (pre.active_id(), pre.spec_active().data()));
        }
        while fi < n_older
            invariant
                fi <= n_older,
                n_older == pre.spec_older().len(),
                pre.files_wf(),
                pre == *old(self),
                all == pre.all_file_views(),
                all.len() == n_older + 1,
                self.spec_active() == pre.spec_active(),
                self.spec_older() == pre.spec_older(),
                self.spec_options() == pre.spec_options(),
                self.spec_seq_no() == pre.spec_seq_no(),
                self.spec_indexer().wf(),
                scan_files(all.take(fi as int)) == Some(done),
                replay_records(replay_init(), done) == Some(
                    ReplayState {
                        index: self.spec_indexer().as_map(),
                        staged: staged_view(staging@),
                        max_seq: current_seq_no as nat,
                    },
                ),
                pre.state_ok(
                    0,
                    ReplayState {
                        index: self.spec_indexer().as_map(),
                        staged: staged_view(staging@),
                        max_seq: current_seq_no as nat,
                    },
                ),
            decreases n_older - fi,
        {
            let ghost cur = ReplayState {
                index: self.spec_indexer().as_map(),
                staged: staged_view(staging@),
                max_seq: current_seq_no as nat,
            };
            let ghost fview = pre.older_views()[fi as int];
            proof {
                assert(self.older_files@[fi as int].id() == fview.0);
                assert(self.older_files@[fi as int].data() == fview.1);
                assert(all[fi as int] == fview);
            }
            let _flen = self.older_files[fi].data_len();
            let res = replay_file(
                &self.older_files[fi],
                &mut self.indexer,
                &mut staging,
                &mut current_seq_no,
            );
            proof {
                lemma_load_decompose(all, fi as int, done, cur);
            }
            match res {
                Err(e) => {
                    proof {
                        match scan_file(fview.0, fview.1, 0) {
                            None => {},
                            Some(p) => {
                                assert(replay_records(cur, p.0) is None);
                            },
                        }
                    }
                    return Err(e);
                },
                Ok(_end) => {
                    proof {
                        let p = scan_file(fview.0, fview.1, 0)->Some_0;
                        let done2 = done + p.0;
                        assert(all.take(fi + 1) =~= all.take(fi as int).push(all[fi as int]));
                        lemma_scan_files_append(all.take(fi as int), seq![all[fi as int]]);
                        assert(all.take(fi as int) + seq![all[fi as int]] =~= all.take(fi + 1));
                        assert(seq![all[fi as int]].skip(1) =~= Seq::<(u32, Seq<u8>)>::empty());
                        assert(seq![all[fi as int]][0] == all[fi as int]);
                        assert(scan_files(Seq::<(u32, Seq<u8>)>::empty()) == Some(
                            Seq::<(LogRecordView, LogRecordPos)>::empty(),
                        ));
                        assert(scan_files(seq![all[fi as int]]) == Some(
                            p.0 + Seq::<(LogRecordView, LogRecordPos)>::empty(),
                        ));
                        assert(p.0 + Seq::<(LogRecordView, LogRecordPos)>::empty() =~= p.0);
                        assert(scan_files(all.take(fi + 1)) == Some(done2));
                        lemma_replay_append(replay_init(), done, p.0);
                        lemma_older_data_at(pre, fi as int);
                        lemma_scan_file_positions(fview.0, fview.1, 0);
                        assert forall|t: int| 0 <= t < p.0.len() implies pre.rec_incoming_ok(
                            0,
                            #[trigger] p.0[t],
                        ) by {
                            assert(p.0[t].1.file_id == fview.0);
                            assert(fview.0 < pre.active_id());
                            assert(pre.file_data(fview.0) == fview.1);
                        }
                        lemma_replay_records_ok(pre, 0, cur, p.0);
                        done = done2;
                    }
                    fi = fi + 1;
                },
            }
        }
        let ghost cur = ReplayState {
            index: self.spec_indexer().as_map(),
            staged: staged_view(staging@),
            max_seq: current_seq_no as nat,
        };
        let ghost fview = (pre.active_id(), pre.spec_active().data());
        let _active_len = self.active_file.data_len();
        let res = replay_file(
            &self.active_file,
            &mut self.indexer,
            &mut staging,
            &mut current_seq_no,
        );
        proof {
            lemma_load_decompose(all, n_older as int, done, cur);
        }
        let end_off = match res {
            Err(e) => {
                proof {
                    match scan_file(fview.0, fview.1, 0) {
                        None => {},
                        Some(p) => {
                            assert(replay_records(cur, p.0) is None);
                        },
                    }
                }
                return Err(e);
            },
            Ok(end) => end,
        };
        proof {
            let p = scan_file(fview.0, fview.1, 0)->Some_0;
            let done2 = done + p.0;
            assert(all.take(n_older + 1) =~= all);
            assert(all.take(n_older as int + 1) =~= all.take(n_older as int).push(
                all[n_older as int],
            ));
            lemma_scan_files_append(all.take(n_older as int), seq![all[n_older as int]]);
            assert(all.take(n_older as int) + seq![all[n_older as int]] =~= all);
            assert(seq![all[n_older as int]].skip(1) =~= Seq::<(u32, Seq<u8>)>::empty());
            assert(seq![all[n_older as int]][0] == all[n_older as int]);
            assert(scan_files(Seq::<(u32, Seq<u8>)>::empty()) == Some(
                Seq::<(LogRecordView, LogRecordPos)>::empty(),
            ));
            assert(scan_files(seq![all[n_older as int]]) == Some(
                p.0 + Seq::<(LogRecordView, LogRecordPos)>::empty(),
            ));
            assert(p.0 + Seq::<(LogRecordView, LogRecordPos)>::empty() =~= p.0);
            assert(scan_files(all) == Some(done2));
            lemma_replay_append(replay_init(), done, p.0);
            lemma_scan_file_positions(fview.0, fview.1, 0);
            lemma_state_ok_mono(pre, 0, end_off as int, cur);
            assert forall|t: int| 0 <= t < p.0.len() implies pre.rec_incoming_ok(
                end_off as int,
                #[trigger] p.0[t],
            ) by {
                assert(p.0[t].1.file_id == pre.active_id());
                assert(pre.file_data(pre.active_id()) == fview.1);
            }
            lemma_replay_records_ok(pre, end_off as int, cur, p.0);
        }
        let ghost st_final = ReplayState {
            index: self.spec_indexer().as_map(),
            staged: staged_view(staging@),
            max_seq: current_seq_no as nat,
        };
        self.active_file.set_write_off(end_off);
        self.seq_no = current_seq_no;
        proof {
            assert(self.older_views() == pre.older_views());
            assert forall|k: Seq<u8>| self.spec_indexer().as_map().dom().contains(k) implies
                self.valid_pos(#[trigger] self.spec_indexer().as_map()[k], k) by {
                let pos = self.spec_indexer().as_map()[k];
                assert(pre.pos_ok(end_off as int, pos, k));
                if pos.file_id == pre.active_id() {
                    crate::data::log_record::lemma_parse_frame_within(
                        pre.spec_active().data(),
                        self.spec_active().data(),
                        pos.offset as int,
                    );
                } else {
                    assert(pre.has_older(pos.file_id));
                    assert(self.has_older(pos.file_id));
                    assert(self.older_data(pos.file_id) == pre.older_data(pos.file_id));
                }
            }
        }
        Ok(())
    }
}

/// The records of the first `fi` files, the current file, and the rest
/// compose: when the current file scans clean its records extend the run, and
/// when it does not the whole directory fails to scan.
proof fn lemma_load_decompose(
    all: Seq<(u32, Seq<u8>)>,
    fi: int,
    done: Seq<(LogRecordView, LogRecordPos)>,
    cur: ReplayState,
)
    requires
        0 <= fi < all.len(),
        scan_files(all.take(fi)) == Some(done),
        replay_records(replay_init(), done) == Some(cur),
    ensures
        scan_file(all[fi].0, all[fi].1, 0) is None ==> scan_files(all) is None,
        (scan_file(all[fi].0, all[fi].1, 0) matches Some(p) && replay_records(cur, p.0) is None)
            ==> recover(all) is None,
{
    assert(all =~= all.take(fi) + all.skip(fi));
    lemma_scan_files_append(all.take(fi), all.skip(fi));
    assert(all.skip(fi)[0] == all[fi]);
    assert(all.skip(fi).skip(1) =~= all.skip(fi + 1));
    match scan_file(all[fi].0, all[fi].1, 0) {
        None => {},
        Some(p) => {
            if replay_records(cur, p.0) is None {
                match scan_files(all.skip(fi + 1)) {
                    None => {},
                    Some(rest) => {
                        assert(scan_files(all.skip(fi)) == Some(p.0 + rest));
                        assert(scan_files(all) == Some(done + (p.0 + rest)));
                        assert(done + (p.0 + rest) =~= (done + p.0) + rest);
                        lemma_replay_append(replay_init(), done + p.0, rest);
                        lemma_replay_append(replay_init(), done, p.0);
                    },
                }
            }
        },
    }
}

/// A record of a batch that never reached its terminator: it carries a
/// non-zero sequence number and is not itself a terminator.
pub open spec fn torn_batch_record(rec: LogRecordView) -> bool {
    &&& (parse_varint(rec.key, 0) matches Some(sp) && sp.0 != 0 && sp.0 <= u64::MAX)
    &&& rec.rec_type != LogRecordType::TXN_FINISHED
}

/// Replaying the records of a batch whose terminator never made it to disk
/// leaves the directory exactly as it was: a torn batch is invisible.
pub proof fn lemma_torn_batch_invisible(
    st: ReplayState,
    tail: Seq<(LogRecordView, LogRecordPos)>,
)
    requires
        forall|t: int| 0 <= t < tail.len() ==> torn_batch_record((#[trigger] tail[t]).0),
    ensures
        replay_records(st, tail) is Some,
        replay_records(st, tail)->Some_0.index == st.index,
    decreases tail.len(),
{
    if tail.len() > 0 {
        assert(torn_batch_record(tail[0].0));
        let st2 = replay_step(st, tail[0].0, tail[0].1)->Some_0;
        assert(st2.index == st.index);
        assert forall|t: int| 0 <= t < tail.skip(1).len() implies torn_batch_record(
            (#[trigger] tail.skip(1)[t]).0,
        ) by {
            assert(tail.skip(1)[t] == tail[t + 1]);
            assert(torn_batch_record(tail[t + 1].0));
        }
        lemma_torn_batch_invisible(st2, tail.skip(1));
    }
}

/// A record written outside any batch: its framed key carries sequence
/// number zero.
pub open spec fn non_batch_record(rec: LogRecordView) -> bool {
    parse_varint(rec.key, 0) matches Some(sp) && sp.0 == 0
}

/// The user key a record's framed key reads back to.
pub open spec fn rec_user_key(rec: LogRecordView) -> Seq<u8> {
    rec.key.skip(parse_varint(rec.key, 0)->Some_0.1)
}

/// Whether a record writes to `k`: it is a put or a tombstone whose framed
/// key reads back as `k`.
pub open spec fn rec_touches(rec: LogRecordView, k: Seq<u8>) -> bool {
    rec_user_key(rec) == k && (rec.rec_type == LogRecordType::NORMAL || rec.rec_type
        == LogRecordType::DELETED)
}

/// The index of the last record in `recs` that writes to `k`, or -1.
pub open spec fn last_touch(recs: Seq<(LogRecordView, LogRecordPos)>, k: Seq<u8>) -> int
    decreases recs.len(),
{
    if recs.len() == 0 {
        -1
    } else if rec_touches(recs.last().0, k) {
        recs.len() - 1
    } else {
        last_touch(recs.drop_last(), k)
    }
}

/// Replaying a run of non-batch records rebuilds exactly the last write for
/// each key, in disk order: a key is live afterwards when its last touch was
/// a put — or when it was live before and nothing touched it — and a live
/// key points at that last put.
pub proof fn lemma_replay_last_write_wins(
    st: ReplayState,
    recs: Seq<(LogRecordView, LogRecordPos)>,
    k: Seq<u8>,
)
    requires
        forall|t: int| 0 <= t < recs.len() ==> non_batch_record((#[trigger] recs[t]).0),
    ensures
        replay_records(st, recs) is Some,
        ({
            let idx = replay_records(st, recs)->Some_0.index;
            let lt = last_touch(recs, k);
            if lt >= 0 {
                if recs[lt].0.rec_type == LogRecordType::NORMAL {
                    idx.dom().contains(k) && idx[k] == recs[lt].1
                } else {
                    !idx.dom().contains(k)
                }
            } else {
                idx.dom().contains(k) == st.index.dom().contains(k) && (st.index.dom().contains(k)
                    ==> idx[k] == st.index[k])
            }
        }),
    decreases recs.len(),
{
    if recs.len() > 0 {
        assert(non_batch_record(recs[0].0));
        let st2 = replay_step(st, recs[0].0, recs[0].1)->Some_0;
        assert(st2.index == apply_one(
            st.index,
            rec_user_key(recs[0].0),
            recs[0].0.rec_type,
            recs[0].1,
        ));
        assert forall|t: int| 0 <= t < recs.skip(1).len() implies non_batch_record(
            (#[trigger] recs.skip(1)[t]).0,
        ) by {
            assert(recs.skip(1)[t] == recs[t + 1]);
            assert(non_batch_record(recs[t + 1].0));
        }
        lemma_replay_last_write_wins(st2, recs.skip(1), k);
        let lt_tail = last_touch(recs.skip(1), k);
        lemma_last_touch_cons(recs, k);
        let idx = replay_records(st, recs)->Some_0.index;
        assert(replay_records(st, recs) == replay_records(st2, recs.skip(1)));
        if lt_tail >= 0 {
            assert(recs[last_touch(recs, k)] == recs.skip(1)[lt_tail]);
        } else {
            // nothing in the tail writes to k, so the outcome hinges on the
            // first record alone
            if rec_touches(recs[0].0, k) {
                assert(last_touch(recs, k) == 0);
                if recs[0].0.rec_type == LogRecordType::NORMAL {
                    assert(st2.index.dom().contains(k) && st2.index[k] == recs[0].1);
                } else {
                    assert(!st2.index.dom().contains(k));
                }
            } else {
                assert(last_touch(recs, k) == -1);
                assert(st2.index.dom().contains(k) == st.index.dom().contains(k));
                assert(st.index.dom().contains(k) ==> st2.index[k] == st.index[k]);
            }
        }
    }
}

/// How the last touch of `k` in a run decomposes across its first record.
proof fn lemma_last_touch_cons(recs: Seq<(LogRecordView, LogRecordPos)>, k: Seq<u8>)
    requires
        recs.len() > 0,
    ensures
        last_touch(recs, k) == (if last_touch(recs.skip(1), k) >= 0 {
            last_touch(recs.skip(1), k) + 1
        } else if rec_touches(recs[0].0, k) {
            0
        } else {
            -1
        }),
        last_touch(recs.skip(1), k) >= 0 ==> 0 <= last_touch(recs, k) < recs.len() && recs[
            last_touch(recs, k)] == recs.skip(1)[last_touch(recs.skip(1), k)],
        last_touch(recs, k) >= 0 ==> last_touch(recs, k) < recs.len(),
    decreases recs.len(),
{
    if recs.len() == 1 {
        assert(recs.skip(1) =~= Seq::<(LogRecordView, LogRecordPos)>::empty());
        assert(recs.drop_last() =~= Seq::<(LogRecordView, LogRecordPos)>::empty());
        assert(recs.last() == recs[0]);
    } else {
        assert(recs.drop_last() =~= seq![recs[0]] + recs.skip(1).drop_last());
        lemma_last_touch_cons(recs.drop_last(), k);
        assert(recs.drop_last().skip(1) =~= recs.skip(1).drop_last());
        assert(recs.skip(1).last() == recs.last());
        if rec_touches(recs.last().0, k) {
            assert(last_touch(recs, k) == recs.len() - 1);
            assert(last_touch(recs.skip(1), k) == recs.skip(1).len() - 1);
        } else {
            assert(last_touch(recs, k) == last_touch(recs.drop_last(), k));
            assert(last_touch(recs.skip(1), k) == last_touch(recs.skip(1).drop_last(), k));
        }
        if last_touch(recs.skip(1), k) >= 0 {
            assert(recs[last_touch(recs, k)] == recs.skip(1)[last_touch(recs.skip(1), k)]);
        }
    }
}

/// Past the end of the file every read is zero-padded, which reads as the
/// end-of-file sentinel.
pub proof fn lemma_parse_past_end(data: Seq<u8>, off: int)
    requires
        off >= data.len(),
    ensures
        parse_frame(data, off) == ParsedRecord::Eof,
{
    let hdr = crate::data::log_record::read_padded(data, off, 11);
    assert(hdr[1] == 0);
    assert(hdr[2] == 0);
    assert(parse_varint(hdr, 1) == Some((0nat, 2int)));
    assert(parse_varint(hdr, 2) == Some((0nat, 3int)));
}

/// A file whose scan ends exactly at its end, cut there, scans the same.
pub proof fn lemma_scan_prefix(fid: u32, data: Seq<u8>, off: int, end: int)
    requires
        scan_file(fid, data, off) == Some((scan_file(fid, data, off)->Some_0.0, end)),
        scan_file(fid, data, off) is Some,
        0 <= off <= end <= data.len(),
    ensures
        scan_file(fid, data.subrange(0, end), off) == scan_file(fid, data, off),
    decreases data.len() - off,
{
    let cut = data.subrange(0, end);
    match parse_frame(data, off) {
        ParsedRecord::Eof => {
            assert(off == end);
            lemma_parse_past_end(cut, off);
        },
        ParsedRecord::Corrupt => {},
        ParsedRecord::Valid { rec, size } => {
            crate::data::log_record::lemma_parse_valid_size_bounds(data, off);
            let rest = scan_file(fid, data, off + size);
            assert(rest is Some);
            assert(rest->Some_0.1 == end);
            assert(off + size <= end) by {
                lemma_scan_end_bounds(fid, data, off + size);
            }
            crate::data::log_record::lemma_parse_frame_within(data, cut, off);
            lemma_scan_prefix(fid, data, off + size, end);
        },
    }
}

/// A scan's end never lies before its start.
pub proof fn lemma_scan_end_bounds(fid: u32, data: Seq<u8>, off: int)
    requires
        scan_file(fid, data, off) is Some,
    ensures
        off <= scan_file(fid, data, off)->Some_0.1,
    decreases data.len() - off,
{
    match parse_frame(data, off) {
        ParsedRecord::Eof => {},
        ParsedRecord::Corrupt => {},
        ParsedRecord::Valid { rec, size } => {
            crate::data::log_record::lemma_parse_valid_size_bounds(data, off);
            lemma_scan_end_bounds(fid, data, off + size);
        },
    }
}

/// A scan started inside the file ends inside it.
pub proof fn lemma_scan_end_upper(fid: u32, data: Seq<u8>, off: int)
    requires
        scan_file(fid, data, off) is Some,
        0 <= off <= data.len(),
    ensures
        scan_file(fid, data, off)->Some_0.1 <= data.len(),
    decreases data.len() - off,
{
    match parse_frame(data, off) {
        ParsedRecord::Eof => {},
        ParsedRecord::Corrupt => {},
        ParsedRecord::Valid { rec, size } => {
            crate::data::log_record::lemma_parse_valid_size_bounds(data, off);
            lemma_scan_end_upper(fid, data, off + size);
        },
    }
}

/// Appending one whole record to a cleanly scanned file extends its scan by
/// exactly that record.
pub proof fn lemma_scan_append_frame(fid: u32, data: Seq<u8>, fr: Seq<u8>, off: int)
    requires
        scan_file(fid, data, off) is Some,
        scan_file(fid, data, off)->Some_0.1 == data.len(),
        0 <= off <= data.len(),
        parse_frame(data + fr, data.len() as int) matches ParsedRecord::Valid { rec, size }
            && size == fr.len(),
        fr.len() > 0,
    ensures
        scan_file(fid, data + fr, off) is Some,
        scan_file(fid, data + fr, off)->Some_0.0 == scan_file(fid, data, off)->Some_0.0.push(
            (
                parse_frame(data + fr, data.len() as int)->rec,
                LogRecordPos { file_id: fid, offset: data.len() as u64 },
            ),
        ),
        scan_file(fid, data + fr, off)->Some_0.1 == data.len() + fr.len(),
    decreases data.len() - off,
{
    let d2 = data + fr;
    assert(d2.subrange(0, data.len() as int) =~= data);
    crate::data::log_record::lemma_parse_valid_size_bounds(d2, data.len() as int);
    match parse_frame(data, off) {
        ParsedRecord::Eof => {
            assert(off == data.len());
            let rec = parse_frame(d2, data.len() as int)->rec;
            let size = parse_frame(d2, data.len() as int)->size;
            lemma_parse_past_end(d2, (data.len() + fr.len()) as int);
            assert(scan_file(fid, d2, data.len() + size) == Some(
                (Seq::<(LogRecordView, LogRecordPos)>::empty(), (data.len() + fr.len()) as int),
            ));
            assert(scan_file(fid, d2, off)->Some_0.0 =~= scan_file(
                fid,
                data,
                off,
            )->Some_0.0.push((rec, LogRecordPos { file_id: fid, offset: data.len() as u64 })));
        },
        ParsedRecord::Corrupt => {},
        ParsedRecord::Valid { rec: r0, size: s0 } => {
            crate::data::log_record::lemma_parse_valid_size_bounds(data, off);
            crate::data::log_record::lemma_parse_frame_extend(data, d2, off);
            lemma_scan_append_frame(fid, data, fr, off + s0);
            let tail2 = scan_file(fid, d2, off + s0)->Some_0.0;
            let tail1 = scan_file(fid, data, off + s0)->Some_0.0;
            let x = (
                parse_frame(d2, data.len() as int)->rec,
                LogRecordPos { file_id: fid, offset: data.len() as u64 },
            );
            assert(tail2 == tail1.push(x));
            let hd = seq![(r0, LogRecordPos { file_id: fid, offset: off as u64 })];
            assert(scan_file(fid, d2, off)->Some_0.0 == hd + tail1.push(x));
            assert(scan_file(fid, data, off)->Some_0.0 == hd + tail1);
            assert(hd + tail1.push(x) =~= (hd + tail1).push(x));
        },
    }
}

/// Replay keeps every buffered batch at or below the running maximum
/// sequence number.
pub open spec fn staged_bounded(st: ReplayState) -> bool {
    forall|i: int| 0 <= i < st.staged.len() ==> (#[trigger] st.staged[i]).0 <= st.max_seq
}

pub proof fn lemma_replay_staged_bounded(st: ReplayState, recs: Seq<(LogRecordView, LogRecordPos)>)
    requires
        staged_bounded(st),
        replay_records(st, recs) is Some,
    ensures
        staged_bounded(replay_records(st, recs)->Some_0),
        replay_records(st, recs)->Some_0.max_seq >= st.max_seq,
    decreases recs.len(),
{
    if recs.len() > 0 {
        let st2 = replay_step(st, recs[0].0, recs[0].1)->Some_0;
        lemma_replay_step_staged_bounded(st, recs[0].0, recs[0].1);
        lemma_replay_staged_bounded(st2, recs.skip(1));
    }
}

proof fn lemma_replay_step_staged_bounded(st: ReplayState, rec: LogRecordView, pos: LogRecordPos)
    requires
        staged_bounded(st),
        replay_step(st, rec, pos) is Some,
    ensures
        staged_bounded(replay_step(st, rec, pos)->Some_0),
        replay_step(st, rec, pos)->Some_0.max_seq >= st.max_seq,
{
    let st2 = replay_step(st, rec, pos)->Some_0;
    let sp = parse_varint(rec.key, 0)->Some_0;
    let sn = sp.0;
    if sn == 0 {
    } else if rec.rec_type == LogRecordType::TXN_FINISHED {
        let i = staged_find(st.staged, sn);
        if i >= 0 {
            lemma_staged_find(st.staged, sn);
            assert forall|q: int| 0 <= q < st2.staged.len() implies (#[trigger] st2.staged[q]).0
                <= st2.max_seq by {
                if q < i {
                    assert(st2.staged[q] == st.staged[q]);
                } else {
                    assert(st2.staged[q] == st.staged[q + 1]);
                }
            }
        }
    } else {
        let i = staged_find(st.staged, sn);
        lemma_staged_find(st.staged, sn);
        if i < 0 {
            assert forall|q: int| 0 <= q < st2.staged.len() implies (#[trigger] st2.staged[q]).0
                <= st2.max_seq by {
                if q < st.staged.len() {
                    assert(st2.staged[q] == st.staged[q]);
                } else {
                    assert(st2.staged[q] == (sn, seq![
                        (rec.key.skip(sp.1), rec.rec_type, pos),
                    ]));
                }
            }
        } else {
            assert forall|q: int| 0 <= q < st2.staged.len() implies (#[trigger] st2.staged[q]).0
                <= st2.max_seq by {
                if q != i {
                    assert(st2.staged[q] == st.staged[q]);
                } else {
                    assert(st2.staged[q].0 == sn);
                }
            }
        }
    }
}

/// Appending one record to a durable engine's log extends the recovery of
/// its files by exactly one replay step, in both append outcomes.
#[verifier::rlimit(100)]
#[verifier::spinoff_prover]
proof fn lemma_durable_append(pre: Engine, post: Engine, rec: LogRecordView, pos: LogRecordPos)
    requires
        pre.files_wf(),
        scan_file(pre.active_id(), pre.spec_active().data(), 0) matches Some(p) && p.1
            == pre.spec_active().data().len(),
        recover(pre.all_file_views()) is Some,
        1 <= rec.key.len() <= u32::MAX,
        rec.value.len() <= u32::MAX,
        ({
            let frame = record_frame(rec.key, rec.value, rec.rec_type);
            ||| (post.active_id() == pre.active_id() && post.older_views() == pre.older_views()
                && post.spec_active().data() == pre.spec_active().data() + frame && pos
                == (LogRecordPos {
                file_id: pre.active_id(),
                offset: pre.spec_active().data().len() as u64,
            }))
            ||| (pre.active_id() < u32::MAX && post.active_id() == pre.active_id() + 1
                && post.older_views() == pre.older_views().push(
                (pre.active_id(), pre.spec_active().data()),
            ) && post.spec_active().data() == frame && pos == (LogRecordPos {
                file_id: (pre.active_id() + 1) as u32,
                offset: 0,
            }))
        }),
    ensures
        scan_file(post.active_id(), post.spec_active().data(), 0) matches Some(p) && p.1
            == post.spec_active().data().len(),
        scan_files(post.all_file_views()) == Some(
            scan_files(pre.all_file_views())->Some_0.push((rec, pos)),
        ),
        recover(post.all_file_views()) == replay_step(
            recover(pre.all_file_views())->Some_0,
            rec,
            pos,
        ),
{
    let frame = record_frame(rec.key, rec.value, rec.rec_type);
    let all = pre.all_file_views();
    let n = pre.older_views().len() as int;
    let recs_all = scan_files(all)->Some_0;
    let st = recover(all)->Some_0;
    lemma_record_frame_len(rec.key, rec.value, rec.rec_type);
    lemma_varint_len(rec.key.len());
    lemma_varint_len(rec.value.len());
    assert(frame.len() >= 7);
    assert(all =~= all.take(n) + seq![all[n]]);
    lemma_scan_files_append(all.take(n), seq![all[n]]);
    assert(all[n] == (pre.active_id(), pre.spec_active().data()));
    assert(seq![all[n]].skip(1) =~= Seq::<(u32, Seq<u8>)>::empty());
    assert(seq![all[n]][0] == all[n]);
    assert(scan_files(Seq::<(u32, Seq<u8>)>::empty()) == Some(Seq::<
        (LogRecordView, LogRecordPos),
    >::empty()));
    assert(scan_files(all.take(n)) is Some);
    let ro = scan_files(all.take(n))->Some_0;
    let ra = scan_file(pre.active_id(), pre.spec_active().data(), 0)->Some_0.0;
    assert(scan_files(seq![all[n]]) == Some(ra + Seq::<(LogRecordView, LogRecordPos)>::empty()));
    assert(ra + Seq::<(LogRecordView, LogRecordPos)>::empty() =~= ra);
    assert(recs_all == ro + ra);
    let all2 = post.all_file_views();
    if post.active_id() == pre.active_id() {
        // the record went to the end of the same active file
        let d = pre.spec_active().data();
        let d2 = d + frame;
        assert(d2.subrange(d.len() as int, (d.len() + frame.len()) as int) =~= frame);
        lemma_parse_frame_encode(d2, d.len() as int, rec.key, rec.value, rec.rec_type);
        assert(parse_frame(d2, d.len() as int) matches ParsedRecord::Valid { rec: r2, size }
            && r2 == rec && size == frame.len());
        lemma_scan_append_frame(pre.active_id(), d, frame, 0);
        let x = (rec, pos);
        assert(scan_file(post.active_id(), d2, 0)->Some_0.0 == ra.push(x));
        assert(scan_file(post.active_id(), d2, 0)->Some_0.1 == d2.len());
        assert(all2 =~= all.take(n) + seq![(post.active_id(), d2)]);
        lemma_scan_files_append(all.take(n), seq![(post.active_id(), d2)]);
        assert(seq![(post.active_id(), d2)].skip(1) =~= Seq::<(u32, Seq<u8>)>::empty());
        assert(seq![(post.active_id(), d2)][0] == (post.active_id(), d2));
        assert(scan_files(seq![(post.active_id(), d2)]) == Some(
            ra.push(x) + Seq::<(LogRecordView, LogRecordPos)>::empty(),
        ));
        assert(ra.push(x) + Seq::<(LogRecordView, LogRecordPos)>::empty() =~= ra.push(x));
        assert(scan_files(all2) == Some(ro + ra.push(x)));
        assert(ro + ra.push(x) =~= recs_all.push(x));
    } else {
        // rollover: the record opened a fresh file of its own
        assert(frame.subrange(0, frame.len() as int) =~= frame);
        lemma_parse_frame_encode(frame, 0, rec.key, rec.value, rec.rec_type);
        lemma_parse_past_end(frame, frame.len() as int);
        crate::data::log_record::lemma_parse_valid_size_bounds(frame, 0);
        let x = (rec, pos);
        assert(scan_file(post.active_id(), frame, 0) == Some((seq![x], frame.len() as int))) by {
            assert(scan_file(post.active_id(), frame, frame.len() as int) == Some(
                (Seq::<(LogRecordView, LogRecordPos)>::empty(), frame.len() as int),
            ));
            assert(seq![x] + Seq::<(LogRecordView, LogRecordPos)>::empty() =~= seq![x]);
        }
        assert(all2 =~= all + seq![(post.active_id(), frame)]);
        lemma_scan_files_append(all, seq![(post.active_id(), frame)]);
        assert(seq![(post.active_id(), frame)].skip(1) =~= Seq::<(u32, Seq<u8>)>::empty());
        assert(seq![(post.active_id(), frame)][0] == (post.active_id(), frame));
        assert(scan_files(seq![(post.active_id(), frame)]) == Some(
            seq![x] + Seq::<(LogRecordView, LogRecordPos)>::empty(),
        ));
        assert(scan_files(all2) == Some(recs_all + seq![x]));
        assert(recs_all + seq![x] =~= recs_all.push(x));
    }
    // one more record replays as one more step
    lemma_replay_append(replay_init(), recs_all, seq![(rec, pos)]);
    assert(seq![(rec, pos)].skip(1) =~= Seq::<(LogRecordView, LogRecordPos)>::empty());
    match replay_step(st, rec, pos) {
        None => {
            assert(replay_records(st, seq![(rec, pos)]) is None);
        },
        Some(stx) => {
            assert(replay_records(st, seq![(rec, pos)]) == replay_records(
                stx,
                seq![(rec, pos)].skip(1),
            ));
            assert(replay_records(stx, Seq::<(LogRecordView, LogRecordPos)>::empty()) == Some(
                stx,
            ));
        },
    }
    assert(recs_all.push((rec, pos)) =~= recs_all + seq![(rec, pos)]);
}

/// Files extend themselves.
pub proof fn lemma_extends_refl(a: Engine)
    ensures
        Engine::extends(a, a),
{
    assert forall|fid: u32| #[trigger] a.has_file(fid) implies a.has_file(fid) && a.file_data(
        fid,
    ).len() <= a.file_data(fid).len() && a.file_data(fid).subrange(
        0,
        a.file_data(fid).len() as int,
    ) == a.file_data(fid) by {
        assert(a.file_data(fid).subrange(0, a.file_data(fid).len() as int) =~= a.file_data(fid));
    }
}

/// Growing twice is still growing.
pub proof fn lemma_extends_trans(a: Engine, b: Engine, c: Engine)
    requires
        Engine::extends(a, b),
        Engine::extends(b, c),
    ensures
        Engine::extends(a, c),
{
    assert forall|fid: u32| #[trigger] a.has_file(fid) implies c.has_file(fid) && a.file_data(
        fid,
    ).len() <= c.file_data(fid).len() && c.file_data(fid).subrange(
        0,
        a.file_data(fid).len() as int,
    ) == a.file_data(fid) by {
        assert(b.has_file(fid));
        assert(c.file_data(fid).subrange(0, b.file_data(fid).len() as int) == b.file_data(fid));
        assert(c.file_data(fid).subrange(0, a.file_data(fid).len() as int) =~= b.file_data(
            fid,
        ).subrange(0, a.file_data(fid).len() as int)) by {
            assert forall|q: int| 0 <= q < a.file_data(fid).len() implies c.file_data(fid)[q]
                == b.file_data(fid)[q] by {
                assert(c.file_data(fid).subrange(0, b.file_data(fid).len() as int)[q]
                    == c.file_data(fid)[q]);
            }
        }
    }
}

/// One batch operation applied to the store: a put inserts, a delete
/// removes, a terminator changes nothing.
pub open spec fn apply_kv_one(
    kv: Map<Seq<u8>, Seq<u8>>,
    op: (Seq<u8>, Seq<u8>, LogRecordType),
) -> Map<Seq<u8>, Seq<u8>> {
    match op.2 {
        LogRecordType::NORMAL => kv.insert(op.0, op.1),
        LogRecordType::DELETED => kv.remove(op.0),
        LogRecordType::TXN_FINISHED => kv,
    }
}

/// A whole batch applied to the store, in staging order.
pub open spec fn batch_effect(
    kv: Map<Seq<u8>, Seq<u8>>,
    ops: Seq<(Seq<u8>, Seq<u8>, LogRecordType)>,
) -> Map<Seq<u8>, Seq<u8>>
    decreases ops.len(),
{
    if ops.len() == 0 {
        kv
    } else {
        batch_effect(apply_kv_one(kv, ops[0]), ops.skip(1))
    }
}

/// The keys, values and kinds a staging list stands for.
pub open spec fn pending_views(pending: Seq<(Vec<u8>, LogRecord)>) -> Seq<
    (Seq<u8>, Seq<u8>, LogRecordType),
> {
    pending.map_values(|p: (Vec<u8>, LogRecord)| (p.0@, p.1.value@, p.1.rec_type))
}

/// The marker key every batch terminator is framed with.
pub open spec fn txn_fin_key() -> Seq<u8> {
    seq![116u8, 120, 110, 45, 102, 105, 110]
}

/// What a commit leaves on disk: one whole record per staged entry, framed
/// with the batch's sequence number, and one terminator framed the same way,
/// sitting after every one of them in file order.
pub open spec fn batch_appended(
    e: Engine,
    ops: Seq<(Seq<u8>, Seq<u8>, LogRecordType)>,
    sn: u64,
    poss: Seq<LogRecordPos>,
    fin: LogRecordPos,
) -> bool {
    &&& poss.len() == ops.len()
    &&& forall|j: int|
        0 <= j < poss.len() ==> {
            let p = #[trigger] poss[j];
            &&& e.has_file(p.file_id)
            &&& (parse_frame(e.file_data(p.file_id), p.offset as int) matches
                ParsedRecord::Valid { rec, size } && rec == (LogRecordView {
                key: varint(sn as nat) + ops[j].0,
                value: ops[j].1,
                rec_type: ops[j].2,
            }))
        }
    &&& e.has_file(fin.file_id)
    &&& (parse_frame(e.file_data(fin.file_id), fin.offset as int) matches ParsedRecord::Valid {
        rec,
        size,
    } && rec == (LogRecordView {
        key: varint(sn as nat) + txn_fin_key(),
        value: Seq::<u8>::empty(),
        rec_type: LogRecordType::TXN_FINISHED,
    }))
    &&& forall|j: int|
        0 <= j < poss.len() ==> ((#[trigger] poss[j]).file_id < fin.file_id || (poss[j].file_id
            == fin.file_id && poss[j].offset < fin.offset))
}

/// One batch record appended mid-commit: the recovery of the files buffers
/// it under the batch's sequence number and raises the running maximum to it.
#[verifier::rlimit(100)]
#[verifier::spinoff_prover]
proof fn lemma_commit_append_step(
    mid: Engine,
    post: Engine,
    st0: ReplayState,
    sn: u64,
    user: Seq<u8>,
    rec: LogRecordView,
    pos: LogRecordPos,
    staged_items: Seq<(Seq<u8>, LogRecordType, LogRecordPos)>,
    first: bool,
)
    requires
        mid.files_wf(),
        scan_file(mid.active_id(), mid.spec_active().data(), 0) matches Some(p) && p.1
            == mid.spec_active().data().len(),
        recover(mid.all_file_views()) == Some(
            ReplayState {
                index: st0.index,
                staged: if first {
                    st0.staged
                } else {
                    st0.staged.push((sn as nat, staged_items))
                },
                max_seq: if first {
                    st0.max_seq
                } else {
                    sn as nat
                },
            },
        ),
        staged_bounded(st0),
        st0.max_seq < sn,
        rec.key == varint(sn as nat) + user,
        rec.rec_type != LogRecordType::TXN_FINISHED,
        1 <= rec.key.len() <= u32::MAX,
        rec.value.len() <= u32::MAX,
        ({
            let frame = record_frame(rec.key, rec.value, rec.rec_type);
            ||| (post.active_id() == mid.active_id() && post.older_views() == mid.older_views()
                && post.spec_active().data() == mid.spec_active().data() + frame && pos
                == (LogRecordPos {
                file_id: mid.active_id(),
                offset: mid.spec_active().data().len() as u64,
            }))
            ||| (mid.active_id() < u32::MAX && post.active_id() == mid.active_id() + 1
                && post.older_views() == mid.older_views().push(
                (mid.active_id(), mid.spec_active().data()),
            ) && post.spec_active().data() == frame && pos == (LogRecordPos {
                file_id: (mid.active_id() + 1) as u32,
                offset: 0,
            }))
        }),
    ensures
        scan_file(post.active_id(), post.spec_active().data(), 0) matches Some(p) && p.1
            == post.spec_active().data().len(),
        recover(post.all_file_views()) == Some(
            ReplayState {
                index: st0.index,
                staged: st0.staged.push(
                    (
                        sn as nat,
                        (if first {
                            Seq::<(Seq<u8>, LogRecordType, LogRecordPos)>::empty()
                        } else {
                            staged_items
                        }).push((user, rec.rec_type, pos)),
                    ),
                ),
                max_seq: sn as nat,
            },
        ),
{
    let cur_st = recover(mid.all_file_views())->Some_0;
    lemma_durable_append(mid, post, rec, pos);
    crate::batch::lemma_key_framing_round_trip(user, sn);
    assert(rec.key.skip(varint_len(sn as nat) as int) == user);
    assert(replay_step(cur_st, rec, pos) is Some);
    let nxt = replay_step(cur_st, rec, pos)->Some_0;
    if first {
        lemma_staged_find_none(cur_st.staged, sn as nat);
        assert(nxt.staged =~~= st0.staged.push(
            (
                sn as nat,
                Seq::<(Seq<u8>, LogRecordType, LogRecordPos)>::empty().push(
                    (user, rec.rec_type, pos),
                ),
            ),
        ));
    } else {
        assert forall|q: int| 0 <= q < st0.staged.len() implies (#[trigger] cur_st.staged[q]).0
            != sn as nat by {
            assert(cur_st.staged[q] == st0.staged[q]);
        }
        assert(cur_st.staged[st0.staged.len() as int].0 == sn as nat);
        lemma_staged_find_at(cur_st.staged, sn as nat, st0.staged.len() as int);
        assert(nxt.staged =~~= st0.staged.push(
            (sn as nat, staged_items.push((user, rec.rec_type, pos))),
        ));
    }
    assert(nxt.index == st0.index);
    assert(nxt.max_seq == sn as nat);
}

/// The batch terminator appended last: the recovery of the files applies the
/// buffered records in staging order and drops the buffer.
#[verifier::rlimit(100)]
#[verifier::spinoff_prover]
proof fn lemma_commit_fin_step(
    mid: Engine,
    post: Engine,
    st0: ReplayState,
    sn: u64,
    rec: LogRecordView,
    pos: LogRecordPos,
    staged_items: Seq<(Seq<u8>, LogRecordType, LogRecordPos)>,
    empty_batch: bool,
)
    requires
        mid.files_wf(),
        scan_file(mid.active_id(), mid.spec_active().data(), 0) matches Some(p) && p.1
            == mid.spec_active().data().len(),
        recover(mid.all_file_views()) == Some(
            ReplayState {
                index: st0.index,
                staged: if empty_batch {
                    st0.staged
                } else {
                    st0.staged.push((sn as nat, staged_items))
                },
                max_seq: if empty_batch {
                    st0.max_seq
                } else {
                    sn as nat
                },
            },
        ),
        staged_bounded(st0),
        st0.max_seq < sn,
        rec.key == varint(sn as nat) + txn_fin_key(),
        rec.rec_type == LogRecordType::TXN_FINISHED,
        1 <= rec.key.len() <= u32::MAX,
        rec.value.len() <= u32::MAX,
        ({
            let frame = record_frame(rec.key, rec.value, rec.rec_type);
            ||| (post.active_id() == mid.active_id() && post.older_views() == mid.older_views()
                && post.spec_active().data() == mid.spec_active().data() + frame && pos
                == (LogRecordPos {
                file_id: mid.active_id(),
                offset: mid.spec_active().data().len() as u64,
            }))
            ||| (mid.active_id() < u32::MAX && post.active_id() == mid.active_id() + 1
                && post.older_views() == mid.older_views().push(
                (mid.active_id(), mid.spec_active().data()),
            ) && post.spec_active().data() == frame && pos == (LogRecordPos {
                file_id: (mid.active_id() + 1) as u32,
                offset: 0,
            }))
        }),
    ensures
        scan_file(post.active_id(), post.spec_active().data(), 0) matches Some(p) && p.1
            == post.spec_active().data().len(),
        recover(post.all_file_views()) == Some(
            ReplayState {
                index: apply_staged(
                    st0.index,
                    if empty_batch {
                        Seq::<(Seq<u8>, LogRecordType, LogRecordPos)>::empty()
                    } else {
                        staged_items
                    },
                ),
                staged: st0.staged,
                max_seq: sn as nat,
            },
        ),
{
    let cur_st = recover(mid.all_file_views())->Some_0;
    lemma_durable_append(mid, post, rec, pos);
    crate::batch::lemma_key_framing_round_trip(txn_fin_key(), sn);
    assert(rec.key.skip(varint_len(sn as nat) as int) == txn_fin_key());
    assert(replay_step(cur_st, rec, pos) is Some);
    let nxt = replay_step(cur_st, rec, pos)->Some_0;
    if empty_batch {
        lemma_staged_find_none(cur_st.staged, sn as nat);
        assert(nxt.index == st0.index);
        assert(apply_staged(
            st0.index,
            Seq::<(Seq<u8>, LogRecordType, LogRecordPos)>::empty(),
        ) == st0.index);
        assert(nxt.staged == st0.staged);
    } else {
        assert forall|q: int| 0 <= q < st0.staged.len() implies (#[trigger] cur_st.staged[q]).0
            != sn as nat by {
            assert(cur_st.staged[q] == st0.staged[q]);
        }
        assert(cur_st.staged[st0.staged.len() as int].0 == sn as nat);
        lemma_staged_find_at(cur_st.staged, sn as nat, st0.staged.len() as int);
        assert(nxt.index == apply_staged(st0.index, staged_items));
        assert(nxt.staged =~~= st0.staged) by {
            assert(nxt.staged == cur_st.staged.remove(st0.staged.len() as int));
            assert(cur_st.staged.remove(st0.staged.len() as int) =~~= st0.staged);
        }
    }
    assert(nxt.max_seq == sn as nat);
}

/// A staging entry the engine can commit: a put or a tombstone under a
/// usable key.
pub open spec fn pending_entry_ok(p: (Vec<u8>, LogRecord)) -> bool {
    &&& 1 <= p.0@.len()
    &&& p.0@.len() + 10 <= u32::MAX
    &&& p.1.value@.len() <= u32::MAX
    &&& p.0@.len() + p.1.value@.len() + 35 <= usize::MAX
    &&& p.1.rec_type == LogRecordType::NORMAL || p.1.rec_type == LogRecordType::DELETED
}

impl Engine {
    /// Appends every staged record framed with `seq_no`, then the batch
    /// terminator, and hands back where each landed, terminator last. When
    /// the engine's files replayed to a state below `seq_no` beforehand,
    /// they afterwards replay to that state with the batch applied and the
    /// running maximum raised to `seq_no`.
    #[verifier::rlimit(100)]
    #[verifier::spinoff_prover]
    fn append_batch_records(&mut self, pending: &Vec<(Vec<u8>, LogRecord)>, seq_no: u64) -> (r: (
        Vec<LogRecordPos>,
        LogRecordPos,
    ))
        requires
            old(self).files_wf(),
            seq_no >= 1,
            old(self).active_id() + pending@.len() + 2 <= u32::MAX,
            forall|i: int| 0 <= i < pending@.len() ==> pending_entry_ok(#[trigger] pending@[i]),
        ensures
            final(self).files_wf(),
            final(self).spec_indexer() == old(self).spec_indexer(),
            final(self).spec_options() == old(self).spec_options(),
            final(self).spec_seq_no() == old(self).spec_seq_no(),
            Engine::extends(*old(self), *final(self)),
            final(self).active_id() <= old(self).active_id() + pending@.len() + 1,
            r.0@.len() == pending@.len(),
            batch_appended(*final(self), pending_views(pending@), seq_no, r.0@, r.1),
            ({
                let st0_opt = recover(old(self).all_file_views());
                ((scan_file(old(self).active_id(), old(self).spec_active().data(), 0) matches
                    Some(p) && p.1 == old(self).spec_active().data().len()) && st0_opt is Some
                    && staged_bounded(st0_opt->Some_0) && st0_opt->Some_0.max_seq < seq_no) ==> {
                    &&& (scan_file(final(self).active_id(), final(self).spec_active().data(), 0)
                        matches Some(p) && p.1 == final(self).spec_active().data().len())
                    &&& recover(final(self).all_file_views()) == Some(
                        ReplayState {
                            index: apply_staged(
                                st0_opt->Some_0.index,
                                Seq::new(
                                    pending@.len(),
                                    |j: int|
                                        (
                                            pending_views(pending@)[j].0,
                                            pending_views(pending@)[j].2,
                                            r.0@[j],
                                        ),
                                ),
                            ),
                            staged: st0_opt->Some_0.staged,
                            max_seq: seq_no as nat,
                        },
                    )
                }
            }),
    {
        let ghost pre = *old(self);
        let ghost views = pending_views(pending@);
        let ghost durable_in = (scan_file(pre.active_id(), pre.spec_active().data(), 0) matches
            Some(p) && p.1 == pre.spec_active().data().len()) && recover(pre.all_file_views())
            is Some && staged_bounded(recover(pre.all_file_views())->Some_0) && recover(
            pre.all_file_views(),
        )->Some_0.max_seq < seq_no;
        let mut positions: Vec<LogRecordPos> = Vec::new();
        let mut i: usize = 0;
        proof {
            lemma_extends_refl(*self);
            lemma_extends_refl(pre);
        }
        while i < pending.len()
            invariant
                i <= pending@.len(),
                positions@.len() == i,
                views == pending_views(pending@),
                forall|q: int| 0 <= q < pending@.len() ==> pending_entry_ok(#[trigger] pending@[q]),
                pre == *old(self),
                pre.files_wf(),
                self.spec_indexer() == pre.spec_indexer(),
                self.files_wf(),
                Engine::extends(pre, *self),
                self.spec_seq_no() == pre.spec_seq_no(),
                seq_no >= 1,
                self.spec_options() == pre.spec_options(),
                self.active_id() <= pre.active_id() + i,
                pre.active_id() + pending@.len() + 2 <= u32::MAX,
                durable_in == ((scan_file(pre.active_id(), pre.spec_active().data(), 0) matches
                    Some(p) && p.1 == pre.spec_active().data().len()) && recover(
                    pre.all_file_views(),
                ) is Some && staged_bounded(recover(pre.all_file_views())->Some_0) && recover(
                    pre.all_file_views(),
                )->Some_0.max_seq < seq_no),
                forall|j: int|
                    0 <= j < i ==> {
                        let pos = #[trigger] positions@[j];
                        &&& self.has_file(pos.file_id)
                        &&& (parse_frame(self.file_data(pos.file_id), pos.offset as int) matches
                            ParsedRecord::Valid { rec, size } && rec == (LogRecordView {
                            key: varint(seq_no as nat) + views[j].0,
                            value: views[j].1,
                            rec_type: views[j].2,
                        }))
                    },
                forall|j: int|
                    0 <= j < i ==> ((#[trigger] positions@[j]).file_id < self.active_id() || (
                    positions@[j].file_id == self.active_id() && positions@[j].offset
                        < self.spec_active().off())),
                durable_in ==> ({
                    let st0 = recover(pre.all_file_views())->Some_0;
                    let items = Seq::new(
                        i as nat,
                        |j: int| (views[j].0, views[j].2, positions@[j]),
                    );
                    &&& (scan_file(self.active_id(), self.spec_active().data(), 0) matches Some(p)
                        && p.1 == self.spec_active().data().len())
                    &&& recover(self.all_file_views()) == Some(
                        ReplayState {
                            index: st0.index,
                            staged: if i == 0 {
                                st0.staged
                            } else {
                                st0.staged.push((seq_no as nat, items))
                            },
                            max_seq: if i == 0 {
                                st0.max_seq
                            } else {
                                seq_no as nat
                            },
                        },
                    )
                }),
            decreases pending@.len() - i,
        {
            let ghost mid = *self;
            let rec_key = crate::batch::log_record_key_with_seq(&pending[i].0, seq_no);
            let value = crate::util::clone_bytes(&pending[i].1.value);
            let record = LogRecord { key: rec_key, value, rec_type: pending[i].1.rec_type };
            proof {
                crate::data::varint::lemma_varint_len(seq_no as nat);
                crate::data::varint::lemma_varint_len_u64(seq_no as nat);
            }
            let pos = match self.append_log_record(&record) {
                Ok(p) => p,
                Err(e) => {
                    proof {
                        assert(false);
                    }
                    let fallback = LogRecordPos { file_id: 0, offset: 0 };
                    return (positions, fallback);
                },
            };
            positions.push(pos);
            proof {
                lemma_extends_trans(pre, mid, *self);
                crate::data::varint::lemma_varint_len(record.key@.len());
                crate::data::varint::lemma_varint_len(record.value@.len());
                assert forall|j: int|
                    0 <= j < i + 1 implies ((#[trigger] positions@[j]).file_id
                    < self.active_id() || (positions@[j].file_id == self.active_id()
                    && positions@[j].offset < self.spec_active().off())) by {
                    if j < i {
                        assert(positions@[j].file_id < mid.active_id() || (positions@[j].file_id
                            == mid.active_id() && positions@[j].offset < mid.spec_active().off()));
                    } else {
                        assert(positions@[j] == pos);
                        assert(pos.offset + frame_len(record.key@.len(), record.value@.len())
                            == self.spec_active().off());
                    }
                }
                assert forall|j: int| 0 <= j < i + 1 implies {
                    let p2 = #[trigger] positions@[j];
                    &&& self.has_file(p2.file_id)
                    &&& (parse_frame(self.file_data(p2.file_id), p2.offset as int) matches
                        ParsedRecord::Valid { rec, size } && rec == (LogRecordView {
                        key: varint(seq_no as nat) + views[j].0,
                        value: views[j].1,
                        rec_type: views[j].2,
                    }))
                } by {
                    if j < i {
                        let p2 = positions@[j];
                        lemma_parse_frame_extend(
                            mid.file_data(p2.file_id),
                            self.file_data(p2.file_id),
                            p2.offset as int,
                        );
                    } else {
                        assert(record@ == (LogRecordView {
                            key: varint(seq_no as nat) + views[j].0,
                            value: views[j].1,
                            rec_type: views[j].2,
                        }));
                    }
                }
                if durable_in {
                    let st0 = recover(pre.all_file_views())->Some_0;
                    let items_old = Seq::new(
                        i as nat,
                        |j: int| (views[j].0, views[j].2, positions@[j]),
                    );
                    let items_new = Seq::new(
                        (i + 1) as nat,
                        |j: int| (views[j].0, views[j].2, positions@[j]),
                    );
                    let item = (views[i as int].0, views[i as int].2, pos);
                    assert(items_new =~= items_old.push(item));
                    assert(mid.spec_active().off() == mid.spec_active().data().len());
                    if i == 0 {
                        lemma_commit_append_step(
                            mid,
                            *self,
                            st0,
                            seq_no,
                            views[i as int].0,
                            record@,
                            pos,
                            items_old,
                            true,
                        );
                        assert(Seq::<(Seq<u8>, LogRecordType, LogRecordPos)>::empty().push(item)
                            =~= items_new);
                    } else {
                        assert(recover(mid.all_file_views())->Some_0.staged =~~= st0.staged.push(
                            (seq_no as nat, items_old),
                        ));
                        lemma_commit_append_step(
                            mid,
                            *self,
                            st0,
                            seq_no,
                            views[i as int].0,
                            record@,
                            pos,
                            items_old,
                            false,
                        );
                        assert(items_old.push(item) =~= items_new);
                    }
                    assert(recover(self.all_file_views()) =~~= Some(
                        ReplayState {
                            index: st0.index,
                            staged: st0.staged.push((seq_no as nat, items_new)),
                            max_seq: seq_no as nat,
                        },
                    ));
                }
            }
            i = i + 1;
        }
        let mut fin_user: Vec<u8> = Vec::new();
        fin_user.push(116);
        fin_user.push(120);
        fin_user.push(110);
        fin_user.push(45);
        fin_user.push(102);
        fin_user.push(105);
        fin_user.push(110);
        let fin_key = crate::batch::log_record_key_with_seq(&fin_user, seq_no);
        let finish_record = LogRecord {
            key: fin_key,
            value: Vec::new(),
            rec_type: LogRecordType::TXN_FINISHED,
        };
        let ghost mid2 = *self;
        proof {
            crate::data::varint::lemma_varint_len(seq_no as nat);
            crate::data::varint::lemma_varint_len_u64(seq_no as nat);
            assert(fin_user@ =~= txn_fin_key());
        }
        let fin_pos = match self.append_log_record(&finish_record) {
            Ok(p) => p,
            Err(e) => {
                proof {
                    assert(false);
                }
                let fallback = LogRecordPos { file_id: 0, offset: 0 };
                return (positions, fallback);
            },
        };
        proof {
            lemma_extends_trans(pre, mid2, *self);
            crate::data::varint::lemma_varint_len(finish_record.key@.len());
            crate::data::varint::lemma_varint_len(finish_record.value@.len());
            assert forall|j2: int| 0 <= j2 < pending@.len() implies {
                let p2 = #[trigger] positions@[j2];
                &&& self.has_file(p2.file_id)
                &&& (parse_frame(self.file_data(p2.file_id), p2.offset as int) matches
                    ParsedRecord::Valid { rec, size } && rec == (LogRecordView {
                    key: varint(seq_no as nat) + views[j2].0,
                    value: views[j2].1,
                    rec_type: views[j2].2,
                }))
            } by {
                let p2 = positions@[j2];
                lemma_parse_frame_extend(
                    mid2.file_data(p2.file_id),
                    self.file_data(p2.file_id),
                    p2.offset as int,
                );
            }
            assert forall|j2: int|
                0 <= j2 < positions@.len() implies ((#[trigger] positions@[j2]).file_id
                < fin_pos.file_id || (positions@[j2].file_id == fin_pos.file_id
                && positions@[j2].offset < fin_pos.offset)) by {
                assert(positions@[j2].file_id < mid2.active_id() || (positions@[j2].file_id
                    == mid2.active_id() && positions@[j2].offset < mid2.spec_active().off()));
            }
            assert(batch_appended(*self, views, seq_no, positions@, fin_pos));
            if durable_in {
                let st0 = recover(pre.all_file_views())->Some_0;
                let items = Seq::new(
                    pending@.len(),
                    |j: int| (views[j].0, views[j].2, positions@[j]),
                );
                assert(mid2.spec_active().off() == mid2.spec_active().data().len());
                if pending@.len() == 0 {
                    lemma_commit_fin_step(
                        mid2,
                        *self,
                        st0,
                        seq_no,
                        finish_record@,
                        fin_pos,
                        items,
                        true,
                    );
                    assert(items =~= Seq::<(Seq<u8>, LogRecordType, LogRecordPos)>::empty());
                } else {
                    assert(recover(mid2.all_file_views())->Some_0.staged =~~= st0.staged.push(
                        (seq_no as nat, items),
                    ));
                    lemma_commit_fin_step(
                        mid2,
                        *self,
                        st0,
                        seq_no,
                        finish_record@,
                        fin_pos,
                        items,
                        false,
                    );
                }
                assert(recover(self.all_file_views()) =~~= Some(
                    ReplayState {
                        index: apply_staged(st0.index, items),
                        staged: st0.staged,
                        max_seq: seq_no as nat,
                    },
                ));
            }
        }
        (positions, fin_pos)
    }

    /// Commits one batch: stamps every staged record with the next sequence
    /// number, appends them all followed by the batch terminator, and only
    /// then folds the batch into the key directory, in staging order.
    #[verifier::rlimit(100)]
    #[verifier::spinoff_prover]
    pub(crate) fn commit_batch(&mut self, pending: &Vec<(Vec<u8>, LogRecord)>) -> (r: Result<
        (),
        Errors,
    >)
        requires
            old(self).wf(),
            old(self).spec_seq_no() < u64::MAX,
            old(self).active_id() + pending@.len() + 2 <= u32::MAX,
            forall|i: int| 0 <= i < pending@.len() ==> pending_entry_ok(#[trigger] pending@[i]),
        ensures
            r is Ok,
            final(self).wf(),
            final(self).spec_options() == old(self).spec_options(),
            final(self).spec_seq_no() == old(self).spec_seq_no() + 1,
            final(self).kv() == batch_effect(old(self).kv(), pending_views(pending@)),
            Engine::extends(*old(self), *final(self)),
            final(self).active_id() <= old(self).active_id() + pending@.len() + 1,
            old(self).durable() ==> final(self).durable(),
            exists|poss: Seq<LogRecordPos>, fin: LogRecordPos|
                #[trigger] batch_appended(
                    *final(self),
                    pending_views(pending@),
                    (old(self).spec_seq_no() + 1) as u64,
                    poss,
                    fin,
                ),
    {
        let ghost pre = *old(self);
        let ghost views = pending_views(pending@);
        let seq_no = self.seq_no + 1;
        self.seq_no = seq_no;
        let ghost bumped = *self;
        proof {
            assert(bumped.spec_active() == pre.spec_active());
            assert(bumped.spec_older() == pre.spec_older());
            assert(bumped.spec_options() == pre.spec_options());
            assert(bumped.spec_indexer() == pre.spec_indexer());
            assert(bumped.older_views() == pre.older_views());
            assert(bumped.active_id() == pre.active_id());
            assert(bumped.all_file_views() =~= pre.all_file_views());
            assert(bumped.files_wf());
        }
        let (positions, fin_pos) = self.append_batch_records(pending, seq_no);
        let ghost items = Seq::new(
            pending@.len(),
            |j: int| (views[j].0, views[j].2, positions@[j]),
        );
        proof {
            // every old directory entry still points at its record
            assert forall|k: Seq<u8>| self.spec_indexer().as_map().dom().contains(k) implies
                self.valid_pos(#[trigger] self.spec_indexer().as_map()[k], k) by {
                lemma_valid_pos_extends(bumped, *self, pre.spec_indexer().as_map()[k], k);
            }
            assert(self.wf());
            assert(Engine::extends(pre, *self)) by {
                assert forall|fid: u32| #[trigger] pre.has_file(fid) implies self.has_file(fid)
                    && pre.file_data(fid).len() <= self.file_data(fid).len() && self.file_data(
                    fid,
                ).subrange(0, pre.file_data(fid).len() as int) == pre.file_data(fid) by {
                    assert(bumped.has_file(fid) == pre.has_file(fid));
                    assert(bumped.file_data(fid) == pre.file_data(fid));
                }
            }
            assert(self.kv() =~= pre.kv()) by {
                assert forall|k: Seq<u8>| self.kv().dom().contains(k) implies self.kv()[k]
                    == pre.kv()[k] by {
                    lemma_valid_pos_extends(bumped, *self, pre.spec_indexer().as_map()[k], k);
                }
            }
            assert(views.take(0) =~= Seq::<(Seq<u8>, Seq<u8>, LogRecordType)>::empty());
            assert(items.take(0) =~= Seq::<(Seq<u8>, LogRecordType, LogRecordPos)>::empty());
        }
        let ghost after_appends = *self;
        let mut j: usize = 0;
        while j < pending.len()
            invariant
                j <= pending@.len(),
                positions@.len() == pending@.len(),
                views == pending_views(pending@),
                items == Seq::new(
                    pending@.len(),
                    |j2: int| (views[j2].0, views[j2].2, positions@[j2]),
                ),
                forall|q: int| 0 <= q < pending@.len() ==> pending_entry_ok(#[trigger] pending@[q]),
                self.wf(),
                pre.wf(),
                self.kv() == batch_effect(pre.kv(), views.take(j as int)),
                self.spec_indexer().as_map() == apply_staged(
                    pre.spec_indexer().as_map(),
                    items.take(j as int),
                ),
                self.spec_seq_no() == seq_no,
                seq_no == pre.spec_seq_no() + 1,
                self.spec_options() == pre.spec_options(),
                Engine::extends(pre, *self),
                self.active_id() <= pre.active_id() + pending@.len() + 1,
                self.spec_active() == after_appends.spec_active(),
                self.spec_older() == after_appends.spec_older(),
                batch_appended(*self, views, seq_no, positions@, fin_pos),
                forall|j2: int|
                    0 <= j2 < pending@.len() ==> {
                        let pos = #[trigger] positions@[j2];
                        &&& self.has_file(pos.file_id)
                        &&& (parse_frame(self.file_data(pos.file_id), pos.offset as int) matches
                            ParsedRecord::Valid { rec, size } && rec == (LogRecordView {
                            key: varint(seq_no as nat) + views[j2].0,
                            value: views[j2].1,
                            rec_type: views[j2].2,
                        }))
                    },
            decreases pending@.len() - j,
        {
            let ghost ej = *self;
            let key = crate::util::clone_bytes(&pending[j].0);
            let ghost k = key@;
            let pos = positions[j];
            proof {
                assert(views[j as int] == (
                    pending@[j as int].0@,
                    pending@[j as int].1.value@,
                    pending@[j as int].1.rec_type,
                ));
                assert(items[j as int] == (views[j as int].0, views[j as int].2, pos));
            }
            match pending[j].1.rec_type {
                LogRecordType::NORMAL => {
                    let ok = self.indexer.put(key, pos);
                    proof {
                        lemma_extends_refl(ej);
                        crate::batch::lemma_key_framing_round_trip(k, seq_no);
                        self.lemma_after_index_update(
                            ej,
                            ej,
                            k,
                            pos,
                            LogRecordView {
                                key: varint(seq_no as nat) + views[j as int].0,
                                value: views[j as int].1,
                                rec_type: views[j as int].2,
                            },
                        );
                    }
                },
                LogRecordType::DELETED => {
                    let ok = self.indexer.delete(key);
                    proof {
                        lemma_extends_refl(ej);
                        self.lemma_after_index_remove(ej, ej, k);
                    }
                },
                LogRecordType::TXN_FINISHED => {
                    proof {
                        assert(false);
                    }
                },
            }
            proof {
                lemma_extends_trans(pre, ej, *self);
                assert(views.take(j + 1).drop_last() =~= views.take(j as int));
                assert(views.take(j + 1).last() == views[j as int]);
                lemma_batch_effect_snoc(pre.kv(), views, j as int);
                assert(self.kv() =~= batch_effect(pre.kv(), views.take(j + 1)));
                lemma_apply_staged_snoc(pre.spec_indexer().as_map(), items, j as int);
                assert(self.spec_indexer().as_map() =~= apply_staged(
                    pre.spec_indexer().as_map(),
                    items.take(j + 1),
                ));
            }
            j = j + 1;
        }
        proof {
            assert(views.take(views.len() as int) =~= views);
            assert(items.take(items.len() as int) =~= items);
            assert(batch_appended(*self, pending_views(pending@), seq_no, positions@, fin_pos));
            if pre.durable() {
                let st0 = recover(pre.all_file_views())->Some_0;
                assert(recover(bumped.all_file_views()) == recover(pre.all_file_views()));
                assert(recover(after_appends.all_file_views()) == Some(
                    ReplayState {
                        index: apply_staged(st0.index, items),
                        staged: st0.staged,
                        max_seq: seq_no as nat,
                    },
                ));
                assert(self.all_file_views() == after_appends.all_file_views());
                assert(self.spec_indexer().as_map() == apply_staged(st0.index, items));
                assert(self.durable());
            }
        }
        Ok(())
    }
}

/// Applying one more buffered record is applying it after the ones before./// Applying one more buffered record is applying it after the ones before.
proof fn lemma_apply_staged_snoc(
    index: Map<Seq<u8>, LogRecordPos>,
    list: Seq<(Seq<u8>, LogRecordType, LogRecordPos)>,
    j: int,
)
    requires
        0 <= j < list.len(),
    ensures
        apply_staged(index, list.take(j + 1)) == apply_one(
            apply_staged(index, list.take(j)),
            list[j].0,
            list[j].1,
            list[j].2,
        ),
    decreases j,
{
    if j == 0 {
        assert(list.take(0) =~= Seq::<(Seq<u8>, LogRecordType, LogRecordPos)>::empty());
        assert(apply_staged(index, list.take(0)) == index);
        assert(list.take(1)[0] == list[0]);
        assert(list.take(1).skip(1) =~= Seq::<(Seq<u8>, LogRecordType, LogRecordPos)>::empty());
        assert(apply_staged(
            apply_one(index, list[0].0, list[0].1, list[0].2),
            list.take(1).skip(1),
        ) == apply_one(index, list[0].0, list[0].1, list[0].2));
        assert(apply_staged(index, list.take(1)) == apply_one(index, list[0].0, list[0].1, list[0].2));
    } else {
        let index2 = apply_one(index, list[0].0, list[0].1, list[0].2);
        lemma_apply_staged_snoc(index2, list.skip(1), j - 1);
        assert(list.take(j + 1)[0] == list[0]);
        assert(list.take(j)[0] == list[0]);
        assert(list.take(j + 1).skip(1) =~= list.skip(1).take(j));
        assert(list.take(j).skip(1) =~= list.skip(1).take(j - 1));
        assert(list.skip(1)[j - 1] == list[j]);
        assert(apply_staged(index, list.take(j + 1)) == apply_staged(index2, list.skip(1).take(j)));
        assert(apply_staged(index, list.take(j)) == apply_staged(index2, list.skip(1).take(j - 1)));
    }
}

/// Folding one more batch operation is applying it after the ones before.
proof fn lemma_batch_effect_snoc(
    kv: Map<Seq<u8>, Seq<u8>>,
    ops: Seq<(Seq<u8>, Seq<u8>, LogRecordType)>,
    j: int,
)
    requires
        0 <= j < ops.len(),
    ensures
        batch_effect(kv, ops.take(j + 1)) == apply_kv_one(batch_effect(kv, ops.take(j)), ops[j]),
    decreases j,
{
    if j == 0 {
        assert(ops.take(0) =~= Seq::<(Seq<u8>, Seq<u8>, LogRecordType)>::empty());
        assert(batch_effect(kv, ops.take(0)) == kv);
        assert(ops.take(1)[0] == ops[0]);
        assert(ops.take(1).skip(1) =~= Seq::<(Seq<u8>, Seq<u8>, LogRecordType)>::empty());
        assert(batch_effect(apply_kv_one(kv, ops[0]), ops.take(1).skip(1)) == apply_kv_one(
            kv,
            ops[0],
        ));
        assert(batch_effect(kv, ops.take(1)) == apply_kv_one(kv, ops[0]));
    } else {
        let kv2 = apply_kv_one(kv, ops[0]);
        lemma_batch_effect_snoc(kv2, ops.skip(1), j - 1);
        assert(ops.take(j + 1)[0] == ops[0]);
        assert(ops.take(j)[0] == ops[0]);
        assert(ops.take(j + 1).skip(1) =~= ops.skip(1).take(j));
        assert(ops.take(j).skip(1) =~= ops.skip(1).take(j - 1));
        assert(ops.skip(1)[j - 1] == ops[j]);
        assert(batch_effect(kv, ops.take(j + 1)) == batch_effect(kv2, ops.skip(1).take(j)));
        assert(batch_effect(kv, ops.take(j)) == batch_effect(kv2, ops.skip(1).take(j - 1)));
    }
}

/// After a rollover append the old files all survive: the retired active file
/// sits at the end of the older list, the rest are untouched.
proof fn lemma_append_extends_roll(pre: Engine, post: Engine)
    requires
        pre.files_wf(),
        pre.active_id() < u32::MAX,
        post.active_id() == pre.active_id() + 1,
        post.older_views() == pre.older_views().push((pre.active_id(), pre.spec_active().data())),
        post.spec_active().wf(),
        post.spec_options() == pre.spec_options(),
    ensures
        post.files_wf(),
        Engine::extends(pre, post),
{
    let n = pre.older_views().len() as int;
    assert forall|i: int, j: int| 0 <= i < j < post.older_views().len() implies (
    #[trigger] post.older_views()[i]).0 < (#[trigger] post.older_views()[j]).0 by {
        if j < n {
            assert(post.older_views()[i] == pre.older_views()[i]);
            assert(post.older_views()[j] == pre.older_views()[j]);
        } else {
            assert(post.older_views()[j] == (pre.active_id(), pre.spec_active().data()));
            assert(post.older_views()[i] == pre.older_views()[i]);
        }
    }
    assert forall|i: int| 0 <= i < post.older_views().len() implies (
    #[trigger] post.older_views()[i]).0 < post.active_id() by {
        if i < n {
            assert(post.older_views()[i] == pre.older_views()[i]);
        }
    }
    assert forall|fid: u32| #[trigger] pre.has_file(fid) implies post.has_file(fid)
        && pre.file_data(fid).len() <= post.file_data(fid).len() && post.file_data(fid).subrange(
        0,
        pre.file_data(fid).len() as int,
    ) == pre.file_data(fid) by {
        if fid == pre.active_id() {
            assert(post.older_views()[n] == (pre.active_id(), pre.spec_active().data()));
            assert(post.has_older(fid)) by {
                assert((#[trigger] post.older_views()[n]).0 == fid);
            }
            assert(fid != post.active_id());
            lemma_older_data_at(post, n);
            assert(post.file_data(fid) == pre.file_data(fid));
            assert(post.file_data(fid).subrange(0, pre.file_data(fid).len() as int)
                =~= pre.file_data(fid));
        } else {
            let i = choose|i: int|
                0 <= i < pre.older_views().len() && (#[trigger] pre.older_views()[i]).0 == fid;
            assert(post.older_views()[i] == pre.older_views()[i]);
            assert(post.has_older(fid)) by {
                assert((#[trigger] post.older_views()[i]).0 == fid);
            }
            lemma_older_data_at(pre, i);
            lemma_older_data_at(post, i);
            assert(fid != post.active_id());
            assert(post.file_data(fid) == pre.file_data(fid));
            assert(post.file_data(fid).subrange(0, pre.file_data(fid).len() as int)
                =~= pre.file_data(fid));
        }
    }
}

/// After an in-place append only the active file changed, and only by growing
/// at its end.
proof fn lemma_append_extends_noroll(pre: Engine, post: Engine)
    requires
        pre.files_wf(),
        post.active_id() == pre.active_id(),
        post.older_views() == pre.older_views(),
        post.spec_active().wf(),
        post.spec_options() == pre.spec_options(),
        post.spec_active().data().len() >= pre.spec_active().data().len(),
        post.spec_active().data().subrange(0, pre.spec_active().data().len() as int)
            == pre.spec_active().data(),
    ensures
        post.files_wf(),
        Engine::extends(pre, post),
{
    assert forall|fid: u32| #[trigger] pre.has_file(fid) implies post.has_file(fid)
        && pre.file_data(fid).len() <= post.file_data(fid).len() && post.file_data(fid).subrange(
        0,
        pre.file_data(fid).len() as int,
    ) == pre.file_data(fid) by {
        if fid == pre.active_id() {
        } else {
            let i = choose|i: int|
                0 <= i < pre.older_views().len() && (#[trigger] pre.older_views()[i]).0 == fid;
            lemma_older_data_at(pre, i);
            lemma_older_data_at(post, i);
            assert(post.file_data(fid).subrange(0, pre.file_data(fid).len() as int)
                =~= pre.file_data(fid));
        }
    }
}

} // verus!
