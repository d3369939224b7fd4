use vstd::prelude::*;

use crate::data::log_record::{LogRecord, LogRecordType};
use crate::data::varint::{
    decode_varint, encode_varint, lemma_parse_varint_encode, lemma_varint_len, lemma_varint_len_u64,
    parse_varint, varint, varint_len,
};
use crate::db::Engine;
use crate::errors::Errors;
use crate::options::WriteBatchOptions;
use crate::util::{bytes_equal, clone_bytes, tail_from};

verus! {

/// The sequence number every write outside a batch is framed with.
pub const NON_TRANSACTION_SEQ_NO: u64 = 0;

/// Frames a user key for the log: the sequence number as a varint, then the
/// key bytes.
pub fn log_record_key_with_seq(key: &Vec<u8>, seq_no: u64) -> (r: Vec<u8>)
    ensures
        r@ == varint(seq_no as nat) + key@,
{
    let mut enc_key: Vec<u8> = Vec::new();
    encode_varint(seq_no, &mut enc_key);
    enc_key.extend_from_slice(key.as_slice());
    proof {
        assert(enc_key@ =~= varint(seq_no as nat) + key@);
    }
    enc_key
}

/// Splits a framed key back into the user key and its sequence number.
/// `None` when the prefix is not a well-formed sequence number.
pub fn parse_log_record_key(key: &Vec<u8>) -> (r: Option<(Vec<u8>, u64)>)
    ensures
        match parse_varint(key@, 0) {
            Some(vj) => if vj.0 <= u64::MAX {
                r is Some && r->Some_0.0@ == key@.skip(vj.1) && r->Some_0.1 == vj.0
            } else {
                r is None
            },
            None => r is None,
        },
{
    match decode_varint(key, 0) {
        None => None,
        Some((seq_no, consumed)) => {
            proof {
                crate::data::varint::lemma_parse_varint_bounds(key@, 0, 10);
            }
            let user_key = tail_from(key, consumed);
            Some((user_key, seq_no))
        },
    }
}

/// The first staged entry carrying `k`, or -1 when none does.
pub open spec fn stage_find(ops: Seq<(Seq<u8>, Seq<u8>, LogRecordType)>, k: Seq<u8>) -> int
    decreases ops.len(),
{
    if ops.len() == 0 {
        -1
    } else if ops[0].0 == k {
        0
    } else {
        let r = stage_find(ops.skip(1), k);
        if r < 0 {
            -1
        } else {
            r + 1
        }
    }
}

/// A staging list after `k` is staged with this value and kind: the entry
/// already carrying `k` is overwritten, else one is added at the end.
pub open spec fn stage_set(
    ops: Seq<(Seq<u8>, Seq<u8>, LogRecordType)>,
    k: Seq<u8>,
    v: Seq<u8>,
    t: LogRecordType,
) -> Seq<(Seq<u8>, Seq<u8>, LogRecordType)> {
    let i = stage_find(ops, k);
    if i < 0 {
        ops.push((k, v, t))
    } else {
        ops.update(i, (k, v, t))
    }
}

proof fn lemma_stage_find_at(ops: Seq<(Seq<u8>, Seq<u8>, LogRecordType)>, k: Seq<u8>, i: int)
    requires
        0 <= i < ops.len(),
        ops[i].0 == k,
        forall|q: int| 0 <= q < i ==> (#[trigger] ops[q]).0 != k,
    ensures
        stage_find(ops, k) == i,
{
    lemma_stage_find(ops, k);
    let sf = stage_find(ops, k);
    if sf == -1 {
        assert(ops[i].0 != k);
    } else {
        if sf < i {
            assert(ops[sf].0 != k);
        }
        if sf > i {
            assert(ops[i].0 != k);
        }
    }
}

proof fn lemma_stage_find_none(ops: Seq<(Seq<u8>, Seq<u8>, LogRecordType)>, k: Seq<u8>)
    requires
        forall|q: int| 0 <= q < ops.len() ==> (#[trigger] ops[q]).0 != k,
    ensures
        stage_find(ops, k) == -1,
{
    lemma_stage_find(ops, k);
    let sf = stage_find(ops, k);
    if sf >= 0 {
        assert(ops[sf].0 != k);
    }
}

proof fn lemma_stage_find(ops: Seq<(Seq<u8>, Seq<u8>, LogRecordType)>, k: Seq<u8>)
    ensures
        stage_find(ops, k) == -1 ==> forall|q: int|
            0 <= q < ops.len() ==> (#[trigger] ops[q]).0 != k,
        stage_find(ops, k) >= 0 ==> 0 <= stage_find(ops, k) < ops.len() && ops[stage_find(
            ops,
            k,
        )].0 == k && forall|q: int| 0 <= q < stage_find(ops, k) ==> (#[trigger] ops[q]).0 != k,
    decreases ops.len(),
{
    if ops.len() > 0 && ops[0].0 != k {
        lemma_stage_find(ops.skip(1), k);
        assert forall|q: int| 1 <= q < ops.len() implies ops[q] == ops.skip(1)[q - 1] by {}
    }
}

/// A batch of writes staged in memory and committed against an engine in one
/// step: the records and the terminator reach the log before the key
/// directory learns of any of them.
pub struct WriteBatch {
    pending_writes: Vec<(Vec<u8>, LogRecord)>,
    options: WriteBatchOptions,
}

impl WriteBatch {
    /// The staged operations in staging order: key, value, kind.
    pub closed spec fn staged_ops(self) -> Seq<(Seq<u8>, Seq<u8>, LogRecordType)> {
        crate::db::pending_views(self.pending_writes@)
    }

    /// The commit configuration the batch was made with.
    pub closed spec fn spec_options(self) -> WriteBatchOptions {
        self.options
    }

    /// Every staged entry is a put or a tombstone under a usable key, each
    /// key staged at most once.
    pub closed spec fn wf(self) -> bool {
        &&& forall|i: int|
            0 <= i < self.pending_writes@.len() ==> crate::db::pending_entry_ok(
                #[trigger] self.pending_writes@[i],
            ) && self.pending_writes@[i].1.key@ == self.pending_writes@[i].0@
        &&& forall|i: int, j: int|
            0 <= i < j < self.pending_writes@.len() ==> (#[trigger] self.pending_writes@[i]).0@ != (
            #[trigger] self.pending_writes@[j]).0@
    }

    /// Stages `value` under `key`, overwriting anything staged there before.
    /// Nothing reaches the engine until the batch commits.
    pub fn put(&mut self, key: Vec<u8>, value: Vec<u8>) -> (r: Result<(), Errors>)
        requires
            old(self).wf(),
            key@.len() + 10 <= u32::MAX,
            value@.len() <= u32::MAX,
            key@.len() + value@.len() + 35 <= usize::MAX,
        ensures
            final(self).wf(),
            final(self).spec_options() == old(self).spec_options(),
            key@.len() == 0 ==> r == Err::<(), Errors>(Errors::KeyIsEmpty) && *final(self) == *old(
                self,
            ),
            key@.len() > 0 ==> r is Ok && final(self).staged_ops() == stage_set(
                old(self).staged_ops(),
                key@,
                value@,
                LogRecordType::NORMAL,
            ),
    {
        if key.is_empty() {
            return Err(Errors::KeyIsEmpty);
        }
        let record = LogRecord {
            key: clone_bytes(&key),
            value,
            rec_type: LogRecordType::NORMAL,
        };
        self.stage(key, record);
        Ok(())
    }

    /// Stages the removal of `key`. A key the store does not hold is not
    /// staged: if it was only staged here, its entry is withdrawn, so no
    /// tombstone is ever written for a key that never existed.
    pub fn delete(&mut self, engine: &Engine, key: Vec<u8>) -> (r: Result<(), Errors>)
        requires
            old(self).wf(),
            engine.wf(),
            key@.len() + 10 <= u32::MAX,
            key@.len() + 35 <= usize::MAX,
        ensures
            final(self).wf(),
            final(self).spec_options() == old(self).spec_options(),
            key@.len() == 0 ==> r == Err::<(), Errors>(Errors::KeyIsEmpty) && *final(self) == *old(
                self,
            ),
            key@.len() > 0 && !engine.kv().dom().contains(key@) ==> r is Ok && final(self).staged_ops()
                == (if stage_find(old(self).staged_ops(), key@) >= 0 {
                old(self).staged_ops().remove(stage_find(old(self).staged_ops(), key@))
            } else {
                old(self).staged_ops()
            }),
            key@.len() > 0 && engine.kv().dom().contains(key@) ==> r is Ok && final(self).staged_ops()
                == stage_set(
                old(self).staged_ops(),
                key@,
                Seq::<u8>::empty(),
                LogRecordType::DELETED,
            ),
    {
        if key.is_empty() {
            return Err(Errors::KeyIsEmpty);
        }
        let ghost ops = self.staged_ops();
        let probe = clone_bytes(&key);
        if engine.indexer_get(probe).is_none() {
            let (found, i) = self.find_slot(&key);
            proof {
                if found {
                    lemma_stage_find_at(ops, key@, i as int);
                } else {
                    lemma_stage_find_none(ops, key@);
                }
            }
            if found {
                let ghost pre = self.pending_writes@;
                self.pending_writes.remove(i);
                proof {
                    assert(self.staged_ops() =~= crate::db::pending_views(pre).remove(i as int));
                }
            }
            return Ok(());
        }
        let record = LogRecord {
            key: clone_bytes(&key),
            value: Vec::new(),
            rec_type: LogRecordType::DELETED,
        };
        self.stage(key, record);
        Ok(())
    }

    /// Writes the staged records to the engine's log under one fresh
    /// sequence number, terminator last, then folds them into the key
    /// directory in staging order and empties the batch. An empty batch
    /// commits to nothing; an overfull one is refused whole.
    pub fn commit(&mut self, engine: &mut Engine) -> (r: Result<(), Errors>)
        requires
            old(self).wf(),
            old(engine).wf(),
            old(engine).spec_seq_no() < u64::MAX,
            old(engine).active_id() + old(self).staged_ops().len() + 2 <= u32::MAX,
        ensures
            final(self).wf(),
            final(self).spec_options() == old(self).spec_options(),
            final(engine).wf(),
            final(engine).spec_options() == old(engine).spec_options(),
            old(engine).durable() ==> final(engine).durable(),
            old(self).staged_ops().len() == 0 ==> r is Ok && *final(engine) == *old(engine)
                && *final(self) == *old(self),
            old(self).staged_ops().len() > old(self).spec_options().max_batch_num ==> r == Err::<
                (),
                Errors,
            >(Errors::ExceedMaxBatchNum) && *final(engine) == *old(engine) && *final(self) == *old(
                self,
            ),
            0 < old(self).staged_ops().len() <= old(self).spec_options().max_batch_num ==> {
                &&& r is Ok
                &&& final(engine).kv() == crate::db::batch_effect(
                    old(engine).kv(),
                    old(self).staged_ops(),
                )
                &&& final(engine).spec_seq_no() == old(engine).spec_seq_no() + 1
                &&& Engine::extends(*old(engine), *final(engine))
                &&& final(engine).active_id() <= old(engine).active_id() + old(
                    self,
                ).staged_ops().len() + 1
                &&& exists|poss: Seq<crate::data::log_record::LogRecordPos>, fin: crate::data::log_record::LogRecordPos|
                    #[trigger] crate::db::batch_appended(
                        *final(engine),
                        old(self).staged_ops(),
                        (old(engine).spec_seq_no() + 1) as u64,
                        poss,
                        fin,
                    )
                &&& final(self).staged_ops() == Seq::<(Seq<u8>, Seq<u8>, LogRecordType)>::empty()
            },
    {
        if self.pending_writes.len() == 0 {
            return Ok(());
        }
        if self.pending_writes.len() > self.options.max_batch_num {
            return Err(Errors::ExceedMaxBatchNum);
        }
        match engine.commit_batch(&self.pending_writes) {
            Ok(()) => (),
            Err(e) => {
                proof {
                    assert(false);
                }
                return Err(e);
            },
        }
        if self.options.sync_writes {
            match engine.sync() {
                Ok(()) => (),
                Err(e) => {
                    proof {
                        assert(false);
                    }
                    return Err(e);
                },
            }
        }
        self.pending_writes.clear();
        proof {
            assert(self.staged_ops() =~= Seq::<(Seq<u8>, Seq<u8>, LogRecordType)>::empty());
        }
        Ok(())
    }

    /// Puts `record` under `key` in the staging list, replacing the entry
    /// already carrying the key if there is one.
    fn stage(&mut self, key: Vec<u8>, record: LogRecord)
        requires
            old(self).wf(),
            crate::db::pending_entry_ok((key, record)),
            record.key@ == key@,
        ensures
            final(self).wf(),
            final(self).spec_options() == old(self).spec_options(),
            final(self).staged_ops() == stage_set(
                old(self).staged_ops(),
                key@,
                record.value@,
                record.rec_type,
            ),
    {
        let ghost ops = self.staged_ops();
        let (found, i) = self.find_slot(&key);
        proof {
            if found {
                lemma_stage_find_at(ops, key@, i as int);
            } else {
                lemma_stage_find_none(ops, key@);
            }
        }
        if found {
            let ghost pre = self.pending_writes@;
            let ghost kk = key@;
            self.pending_writes.remove(i);
            self.pending_writes.insert(i, (key, record));
            proof {
                assert(self.pending_writes@ =~= pre.update(i as int, self.pending_writes@[i as int]));
                assert(self.staged_ops() =~= crate::db::pending_views(pre).update(
                    i as int,
                    (kk, record.value@, record.rec_type),
                ));
                assert forall|q: int| 0 <= q < self.pending_writes@.len() implies
                    crate::db::pending_entry_ok(#[trigger] self.pending_writes@[q])
                        && self.pending_writes@[q].1.key@ == self.pending_writes@[q].0@ by {
                    if q != i {
                        assert(self.pending_writes@[q] == pre[q]);
                    }
                }
                assert forall|q: int, q2: int|
                    0 <= q < q2 < self.pending_writes@.len() implies (
                #[trigger] self.pending_writes@[q]).0@ != (
                #[trigger] self.pending_writes@[q2]).0@ by {
                    assert(pre[i as int].0@ == kk);
                    if q != i {
                        assert(self.pending_writes@[q] == pre[q]);
                    } else {
                        assert(self.pending_writes@[q].0@ == pre[q].0@);
                    }
                    if q2 != i {
                        assert(self.pending_writes@[q2] == pre[q2]);
                    } else {
                        assert(self.pending_writes@[q2].0@ == pre[q2].0@);
                    }
                }
            }
        } else {
            let ghost pre = self.pending_writes@;
            let ghost kk = key@;
            self.pending_writes.push((key, record));
            proof {
                assert(self.staged_ops() =~= crate::db::pending_views(pre).push(
                    (kk, record.value@, record.rec_type),
                ));
                assert forall|q: int| 0 <= q < self.pending_writes@.len() implies
                    crate::db::pending_entry_ok(#[trigger] self.pending_writes@[q])
                        && self.pending_writes@[q].1.key@ == self.pending_writes@[q].0@ by {
                    if q < pre.len() {
                        assert(self.pending_writes@[q] == pre[q]);
                    }
                }
                assert forall|q: int, q2: int|
                    0 <= q < q2 < self.pending_writes@.len() implies (
                #[trigger] self.pending_writes@[q]).0@ != (
                #[trigger] self.pending_writes@[q2]).0@ by {
                    if q2 < pre.len() {
                        assert(self.pending_writes@[q] == pre[q]);
                        assert(self.pending_writes@[q2] == pre[q2]);
                    } else {
                        assert(self.pending_writes@[q] == pre[q]);
                        assert(self.pending_writes@[q2].0@ == kk);
                        assert(crate::db::pending_views(pre)[q].0 != kk);
                    }
                }
            }
        }
    }

    /// The index of the staging entry carrying `key`, when one does.
    fn find_slot(&self, key: &Vec<u8>) -> (r: (bool, usize))
        ensures
            r.0 ==> r.1 < self.pending_writes@.len() && self.staged_ops()[r.1 as int].0 == key@
                && forall|q: int|
                0 <= q < r.1 ==> (#[trigger] self.staged_ops()[q]).0 != key@,
            !r.0 ==> forall|q: int|
                0 <= q < self.staged_ops().len() ==> (#[trigger] self.staged_ops()[q]).0 != key@,
    {
        let mut i: usize = 0;
        while i < self.pending_writes.len()
            invariant
                i <= self.pending_writes@.len(),
                forall|q: int| 0 <= q < i ==> (#[trigger] self.staged_ops()[q]).0 != key@,
            decreases self.pending_writes@.len() - i,
        {
            proof {
                assert(self.staged_ops()[i as int].0 == self.pending_writes@[i as int].0@);
            }
            if bytes_equal(&self.pending_writes[i].0, key) {
                return (true, i);
            }
            i = i + 1;
        }
        (false, 0)
    }
}

impl Engine {
    /// A batch bound to this engine's configuration; it stages writes on its
    /// own and commits them against the engine in one step.
    pub fn new_write_batch(&self, write_batch_options: WriteBatchOptions) -> (r: WriteBatch)
        ensures
            r.wf(),
            r.staged_ops() == Seq::<(Seq<u8>, Seq<u8>, LogRecordType)>::empty(),
            r.spec_options() == write_batch_options,
    {
        let r = WriteBatch { pending_writes: Vec::new(), options: write_batch_options };
        proof {
            assert(r.staged_ops() =~= Seq::<(Seq<u8>, Seq<u8>, LogRecordType)>::empty());
        }
        r
    }
}

/// Framing then parsing hands the key and its sequence number back unchanged.
pub proof fn lemma_key_framing_round_trip(key: Seq<u8>, seq_no: u64)
    ensures
        parse_varint(varint(seq_no as nat) + key, 0) == Some(
            (seq_no as nat, varint_len(seq_no as nat) as int),
        ),
        (varint(seq_no as nat) + key).skip(varint_len(seq_no as nat) as int) == key,
{
    let framed = varint(seq_no as nat) + key;
    lemma_varint_len(seq_no as nat);
    lemma_varint_len_u64(seq_no as nat);
    assert(framed.subrange(0, varint_len(seq_no as nat) as int) =~= varint(seq_no as nat));
    lemma_parse_varint_encode(framed, 0, seq_no as nat, 10);
    assert(framed.skip(varint_len(seq_no as nat) as int) =~= key);
}

} // verus!
