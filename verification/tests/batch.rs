use bitcask::db::Engine;
use bitcask::errors::Errors;
use bitcask::options::{Options, WriteBatchOptions};

fn opts() -> Options {
    let mut o = Options::default();
    o.data_file_size = 64 * 1024 * 1024;
    o
}

#[test]
fn test_batch_commit_makes_writes_visible() {
    let mut engine = Engine::open(opts(), Vec::new()).expect("failed to open engine");
    let mut wb = engine.new_write_batch(WriteBatchOptions::default());

    assert!(wb
        .put("x".as_bytes().to_vec(), "X".as_bytes().to_vec())
        .is_ok());
    assert!(wb
        .put("y".as_bytes().to_vec(), "Y".as_bytes().to_vec())
        .is_ok());

    // staged writes are invisible until the commit
    assert_eq!(
        engine.get("x".as_bytes().to_vec()),
        Err(Errors::KeyNotFound)
    );

    assert!(wb.commit(&mut engine).is_ok());
    assert_eq!(
        engine.get("x".as_bytes().to_vec()),
        Ok("X".as_bytes().to_vec())
    );
    assert_eq!(
        engine.get("y".as_bytes().to_vec()),
        Ok("Y".as_bytes().to_vec())
    );
    assert_eq!(engine.get_seq_no(), 1);

    // a second batch takes the next sequence number
    let mut wb2 = engine.new_write_batch(WriteBatchOptions::default());
    assert!(wb2
        .put("x".as_bytes().to_vec(), "X2".as_bytes().to_vec())
        .is_ok());
    assert!(wb2.commit(&mut engine).is_ok());
    assert_eq!(engine.get_seq_no(), 2);

    // the counter survives a reopen
    let entries = engine.export_files();
    let engine2 = Engine::open(opts(), entries).expect("failed to reopen engine");
    assert_eq!(engine2.get_seq_no(), 2);
    assert_eq!(
        engine2.get("x".as_bytes().to_vec()),
        Ok("X2".as_bytes().to_vec())
    );
    assert_eq!(engine2.list_keys().len(), 2);
}

#[test]
fn test_batch_rejects_empty_key_and_oversize() {
    let mut engine = Engine::open(opts(), Vec::new()).expect("failed to open engine");
    let mut wb = engine.new_write_batch(WriteBatchOptions {
        max_batch_num: 1,
        sync_writes: false,
    });
    assert_eq!(
        wb.put(Vec::new(), "v".as_bytes().to_vec()),
        Err(Errors::KeyIsEmpty)
    );
    assert_eq!(wb.delete(&engine, Vec::new()), Err(Errors::KeyIsEmpty));

    assert!(wb
        .put("a".as_bytes().to_vec(), "1".as_bytes().to_vec())
        .is_ok());
    assert!(wb
        .put("b".as_bytes().to_vec(), "2".as_bytes().to_vec())
        .is_ok());
    assert_eq!(wb.commit(&mut engine), Err(Errors::ExceedMaxBatchNum));
    // a refused commit leaves the store untouched
    assert_eq!(engine.get("a".as_bytes().to_vec()), Err(Errors::KeyNotFound));
}

#[test]
fn test_batch_delete_semantics() {
    let mut engine = Engine::open(opts(), Vec::new()).expect("failed to open engine");
    assert!(engine
        .put("live".as_bytes().to_vec(), "1".as_bytes().to_vec())
        .is_ok());

    let mut wb = engine.new_write_batch(WriteBatchOptions::default());
    // staging a put and withdrawing it: the key never existed, nothing lands
    assert!(wb
        .put("ghost".as_bytes().to_vec(), "g".as_bytes().to_vec())
        .is_ok());
    assert!(wb.delete(&engine, "ghost".as_bytes().to_vec()).is_ok());
    // deleting a live key stages a tombstone
    assert!(wb.delete(&engine, "live".as_bytes().to_vec()).is_ok());
    assert!(wb.commit(&mut engine).is_ok());

    assert_eq!(
        engine.get("ghost".as_bytes().to_vec()),
        Err(Errors::KeyNotFound)
    );
    assert_eq!(
        engine.get("live".as_bytes().to_vec()),
        Err(Errors::KeyNotFound)
    );
}

#[test]
fn test_batch_empty_commit_is_a_no_op() {
    let mut engine = Engine::open(opts(), Vec::new()).expect("failed to open engine");
    let mut wb = engine.new_write_batch(WriteBatchOptions::default());
    assert!(wb.commit(&mut engine).is_ok());
    assert_eq!(engine.get_seq_no(), 0);
}

#[test]
fn test_torn_batch_rolls_back_on_reopen() {
    let mut engine = Engine::open(opts(), Vec::new()).expect("failed to open engine");
    let mut wb = engine.new_write_batch(WriteBatchOptions::default());
    for (k, v) in [("k1", "v1"), ("k2", "v2"), ("k3", "v3")] {
        assert!(wb
            .put(k.as_bytes().to_vec(), v.as_bytes().to_vec())
            .is_ok());
    }
    assert!(wb.commit(&mut engine).is_ok());
    assert_eq!(engine.get_seq_no(), 1);

    // simulate the crash: drop the terminator record from the tail of the
    // highest file. Its frame is one tag byte, two one-byte sizes, the
    // framed key (one varint byte and the seven bytes of its marker), no
    // value, and the four checksum bytes: fifteen bytes.
    let mut entries = engine.export_files();
    let last = entries.len() - 1;
    let keep = entries[last].data.len() - 15;
    entries[last].data.truncate(keep);

    let engine2 = Engine::open(opts(), entries).expect("failed to reopen engine");
    // none of the batch's keys are visible, and the counter still reflects
    // the sequence number the torn batch used
    assert_eq!(
        engine2.get("k1".as_bytes().to_vec()),
        Err(Errors::KeyNotFound)
    );
    assert_eq!(
        engine2.get("k2".as_bytes().to_vec()),
        Err(Errors::KeyNotFound)
    );
    assert_eq!(
        engine2.get("k3".as_bytes().to_vec()),
        Err(Errors::KeyNotFound)
    );
    assert_eq!(engine2.list_keys().len(), 0);
    assert_eq!(engine2.get_seq_no(), 1);
}

#[test]
fn test_committed_batch_survives_crash_after_terminator() {
    let mut engine = Engine::open(opts(), Vec::new()).expect("failed to open engine");
    let mut wb = engine.new_write_batch(WriteBatchOptions::default());
    assert!(wb
        .put("a".as_bytes().to_vec(), "1".as_bytes().to_vec())
        .is_ok());
    assert!(wb.commit(&mut engine).is_ok());
    let mut wb2 = engine.new_write_batch(WriteBatchOptions::default());
    assert!(wb2
        .put("b".as_bytes().to_vec(), "2".as_bytes().to_vec())
        .is_ok());
    assert!(wb2.commit(&mut engine).is_ok());

    // tear the second batch off before its terminator: the first stays whole
    let mut entries = engine.export_files();
    let last = entries.len() - 1;
    // the second batch wrote one ten-byte record and its fifteen-byte
    // terminator; cut both off
    let keep = entries[last].data.len() - 15 - 10;
    entries[last].data.truncate(keep);

    let engine2 = Engine::open(opts(), entries).expect("failed to reopen engine");
    assert_eq!(
        engine2.get("a".as_bytes().to_vec()),
        Ok("1".as_bytes().to_vec())
    );
    assert_eq!(
        engine2.get("b".as_bytes().to_vec()),
        Err(Errors::KeyNotFound)
    );
}
