use bitcask::db::startup::DirEntry;
use bitcask::db::Engine;
use bitcask::errors::Errors;
use bitcask::options::{IteratorOptions, Options};

fn small_opts(size: u64) -> Options {
    let mut opts = Options::default();
    opts.data_file_size = size;
    opts
}

#[test]
fn test_engine_delete() {
    let opts = small_opts(64 * 1024 * 2014);
    let _engine = Engine::open(opts, Vec::new());
}

#[test]
fn test_engine_put_get_delete() {
    let opts = small_opts(64 * 1024 * 1024);
    let mut engine = Engine::open(opts, Vec::new()).expect("failed to open engine");

    assert!(engine
        .put("name".as_bytes().to_vec(), "bitcask".as_bytes().to_vec())
        .is_ok());
    assert_eq!(
        engine.get("name".as_bytes().to_vec()),
        Ok("bitcask".as_bytes().to_vec())
    );
    assert!(engine.delete("name".as_bytes().to_vec()).is_ok());
    assert_eq!(
        engine.get("name".as_bytes().to_vec()),
        Err(Errors::KeyNotFound)
    );

    // empty keys are rejected
    assert_eq!(
        engine.put(Vec::new(), "v".as_bytes().to_vec()),
        Err(Errors::KeyIsEmpty)
    );
    assert_eq!(engine.get(Vec::new()), Err(Errors::KeyIsEmpty));

    // last write wins
    assert!(engine
        .put("a".as_bytes().to_vec(), "1".as_bytes().to_vec())
        .is_ok());
    assert!(engine
        .put("a".as_bytes().to_vec(), "2".as_bytes().to_vec())
        .is_ok());
    assert_eq!(
        engine.get("a".as_bytes().to_vec()),
        Ok("2".as_bytes().to_vec())
    );

    // deleting an absent key succeeds without writing
    assert!(engine.delete("missing".as_bytes().to_vec()).is_ok());

    // an empty value is a fine value
    assert!(engine.put("empty".as_bytes().to_vec(), Vec::new()).is_ok());
    assert_eq!(engine.get("empty".as_bytes().to_vec()), Ok(Vec::new()));
}

#[test]
fn test_engine_reopen_keeps_data() {
    let mut engine = Engine::open(small_opts(1024), Vec::new()).expect("failed to open engine");
    assert!(engine
        .put("a".as_bytes().to_vec(), "1".as_bytes().to_vec())
        .is_ok());
    assert!(engine
        .put("a".as_bytes().to_vec(), "2".as_bytes().to_vec())
        .is_ok());
    assert!(engine.close().is_ok());
    let entries = engine.export_files();

    let engine2 = Engine::open(small_opts(1024), entries).expect("failed to reopen engine");
    assert_eq!(
        engine2.get("a".as_bytes().to_vec()),
        Ok("2".as_bytes().to_vec())
    );
    assert_eq!(engine2.list_keys(), vec!["a".as_bytes().to_vec()]);
}

#[test]
fn test_engine_rollover() {
    // each record frames to 31 bytes, so a 64-byte file holds two of them
    let mut engine = Engine::open(small_opts(64), Vec::new()).expect("failed to open engine");
    let keys = [
        "k00", "k01", "k02", "k03", "k04", "k05", "k06", "k07", "k08", "k09",
    ];
    for k in keys {
        let value = vec![7u8; 20];
        assert!(engine.put(k.as_bytes().to_vec(), value).is_ok());
    }
    let files = engine.export_files();
    assert!(files.len() >= 3);
    assert_eq!(
        engine.get("k05".as_bytes().to_vec()),
        Ok(vec![7u8; 20])
    );
    // every file but the last stays within the configured size
    for f in files.iter().take(files.len() - 1) {
        assert!(f.data.len() <= 64);
    }
}

#[test]
fn test_engine_reopen_detects_tampering() {
    let mut engine = Engine::open(small_opts(1024), Vec::new()).expect("failed to open engine");
    assert!(engine
        .put("name".as_bytes().to_vec(), "bitcask".as_bytes().to_vec())
        .is_ok());
    let mut entries = engine.export_files();
    let last = entries.len() - 1;
    let data_len = entries[last].data.len();
    // flip one bit inside the value region of the record
    entries[last].data[data_len - 5] ^= 0x01;
    let res = Engine::open(small_opts(1024), entries);
    assert!(matches!(res, Err(Errors::InvalidLogRecordCrc)));
}

#[test]
fn test_engine_rejects_bad_options_and_names() {
    let mut opts = small_opts(1024);
    opts.dir_path = String::new();
    assert!(matches!(
        Engine::open(opts, Vec::new()),
        Err(Errors::DirPathIsEmpty)
    ));

    let opts = small_opts(0);
    assert!(matches!(
        Engine::open(opts, Vec::new()),
        Err(Errors::DataFileSizeTooSmall)
    ));

    let bad_name = DirEntry {
        name: "not-a-number.data".as_bytes().to_vec(),
        data: Vec::new(),
    };
    assert!(matches!(
        Engine::open(small_opts(1024), vec![bad_name]),
        Err(Errors::DataDirectoryCorrupted)
    ));

    // files that do not end in ".data" are ignored
    let foreign = DirEntry {
        name: "README".as_bytes().to_vec(),
        data: "anything".as_bytes().to_vec(),
    };
    assert!(Engine::open(small_opts(1024), vec![foreign]).is_ok());
}

#[test]
fn test_engine_iterator_and_list_keys() {
    let mut engine = Engine::open(small_opts(1024), Vec::new()).expect("failed to open engine");
    for (k, v) in [("aacc", "1"), ("abbb", "2"), ("accc", "3"), ("bxyz", "4")] {
        assert!(engine
            .put(k.as_bytes().to_vec(), v.as_bytes().to_vec())
            .is_ok());
    }
    assert_eq!(
        engine.list_keys(),
        vec![
            "aacc".as_bytes().to_vec(),
            "abbb".as_bytes().to_vec(),
            "accc".as_bytes().to_vec(),
            "bxyz".as_bytes().to_vec()
        ]
    );

    let mut iter = engine.iter(&IteratorOptions::default());
    let mut pairs: Vec<(Vec<u8>, Vec<u8>)> = Vec::new();
    while let Ok(Some(p)) = iter.next(&engine) {
        pairs.push(p);
    }
    assert_eq!(pairs.len(), 4);
    assert_eq!(pairs[0].0, "aacc".as_bytes().to_vec());
    assert_eq!(pairs[0].1, "1".as_bytes().to_vec());
    assert_eq!(pairs[3].0, "bxyz".as_bytes().to_vec());

    // seek positions on the first key at or past the target
    let mut iter = engine.iter(&IteratorOptions::default());
    iter.seek("ab".as_bytes().to_vec());
    let next = iter.next(&engine).unwrap().unwrap();
    assert_eq!(next.0, "abbb".as_bytes().to_vec());

    // a prefix narrows the walk to exactly the keys carrying it
    let mut iter = engine.iter(&IteratorOptions {
        prefix: "a".as_bytes().to_vec(),
        reverse: false,
    });
    let mut with_prefix: Vec<Vec<u8>> = Vec::new();
    while let Ok(Some(p)) = iter.next(&engine) {
        with_prefix.push(p.0);
    }
    assert_eq!(with_prefix.len(), 3);

    // rewind starts the walk over
    let mut iter = engine.iter(&IteratorOptions::default());
    assert!(iter.next(&engine).unwrap().is_some());
    iter.rewind();
    let first_again = iter.next(&engine).unwrap().unwrap();
    assert_eq!(first_again.0, "aacc".as_bytes().to_vec());

    // fold visits pairs until told to stop
    let res = engine.fold(|_k, _v| true);
    assert!(res.is_ok());
}
