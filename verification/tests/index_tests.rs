use bitcask::index::BTree;
use bitcask::options::IteratorOptions;
use bitcask::record::LogRecordPos;

#[test]
fn test_btree_put() {
    let mut bt = BTree::new();
    let res1 = bt.put(
        "".as_bytes().to_vec(),
        LogRecordPos {
            file_id: 1,
            offset: 10,
        },
    );
    // A fresh key had no prior mapping.
    assert_eq!(res1, false);

    let res2 = bt.put(
        "aa".as_bytes().to_vec(),
        LogRecordPos {
            file_id: 11,
            offset: 22,
        },
    );
    assert_eq!(res2, false);
}

#[test]
fn test_btree_get() {
    let mut bt = BTree::new();
    let res1 = bt.put(
        "".as_bytes().to_vec(),
        LogRecordPos {
            file_id: 1,
            offset: 10,
        },
    );
    assert_eq!(res1, false);
    let res2 = bt.put(
        "aa".as_bytes().to_vec(),
        LogRecordPos {
            file_id: 11,
            offset: 22,
        },
    );
    assert_eq!(res2, false);

    let pos1 = bt.get("".as_bytes().to_vec());
    assert!(pos1.is_some());
    assert_eq!(pos1.unwrap().file_id, 1);
    assert_eq!(pos1.unwrap().offset, 10);

    let pos2 = bt.get("aa".as_bytes().to_vec());
    assert!(pos2.is_some());
    assert_eq!(pos2.unwrap().file_id, 11);
    assert_eq!(pos2.unwrap().offset, 22);
}

#[test]
fn test_btree_delete() {
    let mut bt = BTree::new();
    let res1 = bt.put(
        "".as_bytes().to_vec(),
        LogRecordPos {
            file_id: 1,
            offset: 10,
        },
    );
    assert_eq!(res1, false);
    let res2 = bt.put(
        "aa".as_bytes().to_vec(),
        LogRecordPos {
            file_id: 11,
            offset: 22,
        },
    );
    assert_eq!(res2, false);

    let del1 = bt.delete("".as_bytes().to_vec());
    assert!(del1);

    let del2 = bt.delete("aa".as_bytes().to_vec());
    assert!(del2);

    let del3 = bt.delete("not exist".as_bytes().to_vec());
    assert!(!del3);
}

#[test]
fn test_btree_iterator_seek() {
    let mut bt = BTree::new();

    let mut iter1 = bt.iterator(IteratorOptions::default());
    iter1.seek("aa".as_bytes().to_vec());
    let res1 = iter1.next();
    assert!(res1.is_none());

    bt.put(
        "ccde".as_bytes().to_vec(),
        LogRecordPos {
            file_id: 1,
            offset: 10,
        },
    );
    let mut iter2 = bt.iterator(IteratorOptions::default());
    iter2.seek("aa".as_bytes().to_vec());
    let res2 = iter2.next();
    assert!(res2.is_some());

    let mut iter3 = bt.iterator(IteratorOptions::default());
    iter3.seek("zz".as_bytes().to_vec());
    let res3 = iter3.next();
    assert!(res3.is_none());

    bt.put(
        "bbed".as_bytes().to_vec(),
        LogRecordPos {
            file_id: 1,
            offset: 10,
        },
    );
    bt.put(
        "aaed".as_bytes().to_vec(),
        LogRecordPos {
            file_id: 1,
            offset: 10,
        },
    );
    bt.put(
        "cadd".as_bytes().to_vec(),
        LogRecordPos {
            file_id: 1,
            offset: 10,
        },
    );

    let mut iter4 = bt.iterator(IteratorOptions::default());
    iter4.seek("b".as_bytes().to_vec());
    while let Some(item) = iter4.next() {
        assert!(item.0.len() > 0);
    }

    let mut iter5 = bt.iterator(IteratorOptions::default());
    iter5.seek("cadd".as_bytes().to_vec());
    while let Some(item) = iter5.next() {
        assert!(item.0.len() > 0);
    }

    let mut iter6 = bt.iterator(IteratorOptions::default());
    iter6.seek("zzz".as_bytes().to_vec());
    let res6 = iter6.next();
    assert!(res6.is_none());

    let mut iter_opts = IteratorOptions::default();
    iter_opts.reverse = true;
    let mut iter7 = bt.iterator(iter_opts);
    iter7.seek("bb".as_bytes().to_vec());
    while let Some(item) = iter7.next() {
        assert!(item.0.len() > 0);
    }
}

#[test]
fn test_btree_iterator_next() {
    let mut bt = BTree::new();
    let mut iter1 = bt.iterator(IteratorOptions::default());
    assert!(iter1.next().is_none());

    bt.put(
        "cadd".as_bytes().to_vec(),
        LogRecordPos {
            file_id: 1,
            offset: 10,
        },
    );
    let mut iter_opt1 = IteratorOptions::default();
    iter_opt1.reverse = true;
    let mut iter2 = bt.iterator(iter_opt1);
    assert!(iter2.next().is_some());

    bt.put(
        "bbed".as_bytes().to_vec(),
        LogRecordPos {
            file_id: 1,
            offset: 10,
        },
    );
    bt.put(
        "aaed".as_bytes().to_vec(),
        LogRecordPos {
            file_id: 1,
            offset: 10,
        },
    );
    bt.put(
        "cdea".as_bytes().to_vec(),
        LogRecordPos {
            file_id: 1,
            offset: 10,
        },
    );

    let mut iter_opt2 = IteratorOptions::default();
    iter_opt2.reverse = true;
    let mut iter3 = bt.iterator(iter_opt2);
    while let Some(item) = iter3.next() {
        assert!(item.0.len() > 0);
    }

    let mut iter_opt3 = IteratorOptions::default();
    iter_opt3.prefix = "bbed".as_bytes().to_vec();
    let mut iter4 = bt.iterator(iter_opt3);
    while let Some(item) = iter4.next() {
        assert!(item.0.len() > 0);
    }
}

#[test]
fn test_iterator_order_and_rewind() {
    let mut bt = BTree::new();
    for (i, k) in ["banana", "apple", "cherry"].iter().enumerate() {
        bt.put(
            k.as_bytes().to_vec(),
            LogRecordPos {
                file_id: 0,
                offset: i as u64,
            },
        );
    }
    let mut it = bt.iterator(IteratorOptions::default());
    let mut seen: Vec<Vec<u8>> = Vec::new();
    while let Some(item) = it.next() {
        seen.push(item.0);
    }
    assert_eq!(seen, vec![b"apple".to_vec(), b"banana".to_vec(), b"cherry".to_vec()]);

    it.rewind();
    let first = it.next().unwrap();
    assert_eq!(first.0, b"apple".to_vec());

    let mut opts = IteratorOptions::default();
    opts.reverse = true;
    let mut rit = bt.iterator(opts);
    let mut rseen: Vec<Vec<u8>> = Vec::new();
    while let Some(item) = rit.next() {
        rseen.push(item.0);
    }
    assert_eq!(rseen, vec![b"cherry".to_vec(), b"banana".to_vec(), b"apple".to_vec()]);
}

#[test]
fn test_prefix_iterator() {
    let mut bt = BTree::new();
    bt.put(
        b"apple".to_vec(),
        LogRecordPos {
            file_id: 0,
            offset: 0,
        },
    );
    bt.put(
        b"apricot".to_vec(),
        LogRecordPos {
            file_id: 0,
            offset: 1,
        },
    );
    bt.put(
        b"banana".to_vec(),
        LogRecordPos {
            file_id: 0,
            offset: 2,
        },
    );
    let mut opts = IteratorOptions::default();
    opts.prefix = b"ap".to_vec();
    let mut it = bt.iterator(opts);
    let mut seen: Vec<Vec<u8>> = Vec::new();
    while let Some(item) = it.next() {
        seen.push(item.0);
    }
    assert_eq!(seen, vec![b"apple".to_vec(), b"apricot".to_vec()]);
}

#[test]
fn test_iterator_isolation() {
    let mut bt = BTree::new();
    bt.put(
        b"one".to_vec(),
        LogRecordPos {
            file_id: 0,
            offset: 0,
        },
    );
    let mut it = bt.iterator(IteratorOptions::default());
    // Mutations after the iterator was built do not reach its snapshot.
    bt.put(
        b"two".to_vec(),
        LogRecordPos {
            file_id: 0,
            offset: 1,
        },
    );
    bt.delete(b"one".to_vec());
    let mut seen: Vec<Vec<u8>> = Vec::new();
    while let Some(item) = it.next() {
        seen.push(item.0);
    }
    assert_eq!(seen, vec![b"one".to_vec()]);
}

#[test]
fn test_list_keys() {
    let mut bt = BTree::new();
    bt.put(
        b"b".to_vec(),
        LogRecordPos {
            file_id: 0,
            offset: 0,
        },
    );
    bt.put(
        b"a".to_vec(),
        LogRecordPos {
            file_id: 0,
            offset: 1,
        },
    );
    let keys = bt.list_keys().unwrap();
    assert_eq!(keys, vec![b"a".to_vec(), b"b".to_vec()]);
}
