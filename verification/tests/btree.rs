use bitcask::data::log_record::LogRecordPos;
use bitcask::index::btree::Btree;
use bitcask::options::IteratorOptions;

#[test]
fn test_btree_put() {
    let mut bt = Btree::new();
    let res = bt.put(
        "vec![1,2]".as_bytes().to_vec(),
        LogRecordPos {
            file_id: 1,
            offset: 2,
        },
    );
    assert_eq!(res, true);
    let res = bt.put(
        "aa".as_bytes().to_vec(),
        LogRecordPos {
            file_id: 1,
            offset: 10,
        },
    );
    assert_eq!(res, true);
    let res = bt.put(
        "aaa".as_bytes().to_vec(),
        LogRecordPos {
            file_id: 1,
            offset: 20,
        },
    );
    assert_eq!(res, true);
}

#[test]
fn test_btree_get() {
    let mut bt = Btree::new();
    bt.put(
        "vec![1,2]".as_bytes().to_vec(),
        LogRecordPos {
            file_id: 1,
            offset: 2,
        },
    );
    let res = bt.get("vec![1,2]".as_bytes().to_vec());
    assert!(res.is_some());
    assert!(res.unwrap().file_id == 1 && res.unwrap().offset == 2);
}

#[test]
fn test_btree_delete() {
    let mut bt = Btree::new();
    bt.put(
        "vec![1,2]".as_bytes().to_vec(),
        LogRecordPos {
            file_id: 1,
            offset: 2,
        },
    );
    assert_eq!(bt.delete("vec![1,2]".as_bytes().to_vec()), true);
    assert_eq!(bt.delete("vec![1,2]".as_bytes().to_vec()), false);
}

#[test]
fn test_btree_iterator_seek() {
    let mut bt = Btree::new();
    let mut iter1 = bt.iterator(&IteratorOptions::default());
    iter1.seek("aaa".as_bytes().to_vec());
    let res = iter1.next();
    assert!(res.is_none());

    bt.put(
        "ccde".as_bytes().to_vec(),
        LogRecordPos {
            file_id: 1,
            offset: 10,
        },
    );
    let mut iter2 = bt.iterator(&IteratorOptions::default());
    iter2.seek("aa".as_bytes().to_vec());
    let res = iter2.next();
    assert!(res.is_some());

    let mut iter3 = bt.iterator(&IteratorOptions::default());
    iter3.seek("zz".as_bytes().to_vec());
    assert!(iter3.next().is_none());

    bt.put(
        "ba".as_bytes().to_vec(),
        LogRecordPos {
            file_id: 1,
            offset: 20,
        },
    );
    bt.put(
        "aawe".as_bytes().to_vec(),
        LogRecordPos {
            file_id: 1,
            offset: 20,
        },
    );
    bt.put(
        "cdsa".as_bytes().to_vec(),
        LogRecordPos {
            file_id: 1,
            offset: 20,
        },
    );
    let mut iter = bt.iterator(&IteratorOptions::default());
    iter.seek("b".as_bytes().to_vec());
    while let Some(item) = iter.next() {
        println!("{:?}", String::from_utf8(item.0.to_vec()));
    }
    let mut iter = bt.iterator(&IteratorOptions::default());
    iter.seek("aawe".as_bytes().to_vec());
    assert_eq!(iter.next().unwrap().0.to_vec(), "aawe".as_bytes().to_vec());

    let mut iter = bt.iterator(&IteratorOptions {
        prefix: vec![],
        reverse: true,
    });
    iter.seek("cdsa".as_bytes().to_vec());
    while let Some(item) = iter.next() {
        println!("{:?}", String::from_utf8(item.0.to_vec()));
    }
}

#[test]
fn test_btree_iterator_next() {
    let mut bt = Btree::new();
    let mut iter1 = bt.iterator(&IteratorOptions::default());
    assert!(iter1.next().is_none());

    bt.put(
        "cadd".as_bytes().to_vec(),
        LogRecordPos {
            file_id: 1,
            offset: 10,
        },
    );
    let mut iter_opt1 = IteratorOptions::default();
    iter_opt1.reverse = true;
    let mut iter2 = bt.iterator(&iter_opt1);
    assert!(iter2.next().is_some());

    bt.put(
        "bbed".as_bytes().to_vec(),
        LogRecordPos {
            file_id: 1,
            offset: 10,
        },
    );
    bt.put(
        "aaed".as_bytes().to_vec(),
        LogRecordPos {
            file_id: 1,
            offset: 10,
        },
    );
    bt.put(
        "cdea".as_bytes().to_vec(),
        LogRecordPos {
            file_id: 1,
            offset: 10,
        },
    );

    let mut iter_opt2 = IteratorOptions::default();
    iter_opt2.reverse = true;
    let mut iter3 = bt.iterator(&iter_opt2);
    while let Some(item) = iter3.next() {
        assert!(item.0.len() > 0);
    }

    let mut iter_opt3 = IteratorOptions::default();
    iter_opt3.prefix = "bbed".as_bytes().to_vec();
    let mut iter4 = bt.iterator(&iter_opt3);
    while let Some(item) = iter4.next() {
        assert!(item.0.len() > 0);
    }
}

#[test]
fn test_btree_iterator_order_and_prefix() {
    let mut bt = Btree::new();
    for key in ["aacc", "abbb", "accc", "bxyz"] {
        bt.put(
            key.as_bytes().to_vec(),
            LogRecordPos {
                file_id: 0,
                offset: 0,
            },
        );
    }
    // every live key, ascending
    let mut iter = bt.iterator(&IteratorOptions::default());
    let mut seen: Vec<Vec<u8>> = Vec::new();
    while let Some(item) = iter.next() {
        seen.push(item.0);
    }
    assert_eq!(
        seen,
        vec![
            "aacc".as_bytes().to_vec(),
            "abbb".as_bytes().to_vec(),
            "accc".as_bytes().to_vec(),
            "bxyz".as_bytes().to_vec()
        ]
    );
    // reverse order
    let mut iter = bt.iterator(&IteratorOptions {
        prefix: vec![],
        reverse: true,
    });
    let mut seen_rev: Vec<Vec<u8>> = Vec::new();
    while let Some(item) = iter.next() {
        seen_rev.push(item.0);
    }
    seen_rev.reverse();
    assert_eq!(seen, seen_rev);
    // exactly the keys carrying the prefix
    let mut iter = bt.iterator(&IteratorOptions {
        prefix: "a".as_bytes().to_vec(),
        reverse: false,
    });
    let mut with_prefix: Vec<Vec<u8>> = Vec::new();
    while let Some(item) = iter.next() {
        with_prefix.push(item.0);
    }
    assert_eq!(
        with_prefix,
        vec![
            "aacc".as_bytes().to_vec(),
            "abbb".as_bytes().to_vec(),
            "accc".as_bytes().to_vec()
        ]
    );
}
