use bitcask::db::Engine;
use bitcask::errors::Errors;
use bitcask::options::{IndexType, Options};

fn test_options(data_file_size: u64, sync_writes: bool) -> Options {
    Options {
        dir_path: String::from("db-data"),
        data_file_size,
        sync_writes,
        index_type: IndexType::BTree,
    }
}

#[test]
fn test_basic_round_trip() {
    let mut engine = Engine::open(test_options(4096, false)).unwrap();
    engine.put(b"k1".to_vec(), b"v1".to_vec()).unwrap();
    engine.put(b"k2".to_vec(), b"v2".to_vec()).unwrap();
    assert_eq!(engine.get(b"k1".to_vec()).unwrap(), b"v1".to_vec());
    assert_eq!(engine.get(b"k2".to_vec()).unwrap(), b"v2".to_vec());
    assert_eq!(engine.get(b"k3".to_vec()), Err(Errors::KeyNotFound));
}

#[test]
fn test_overwrite() {
    let mut engine = Engine::open(test_options(4096, false)).unwrap();
    engine.put(b"k".to_vec(), b"a".to_vec()).unwrap();
    engine.put(b"k".to_vec(), b"bb".to_vec()).unwrap();
    engine.put(b"k".to_vec(), b"ccc".to_vec()).unwrap();
    assert_eq!(engine.get(b"k".to_vec()).unwrap(), b"ccc".to_vec());
    // The log keeps all three records: 9 + 10 + 11 bytes.
    assert_eq!(engine.active_write_off(), 30);
}

#[test]
fn test_delete_then_get() {
    let mut engine = Engine::open(test_options(4096, false)).unwrap();
    engine.put(b"k".to_vec(), b"v".to_vec()).unwrap();
    engine.delete(b"k".to_vec()).unwrap();
    assert_eq!(engine.get(b"k".to_vec()), Err(Errors::KeyNotFound));
    // The log holds one normal record (9 bytes) and one tombstone (8).
    assert_eq!(engine.active_write_off(), 17);
}

#[test]
fn test_empty_key_rejected() {
    let mut engine = Engine::open(test_options(4096, false)).unwrap();
    assert_eq!(engine.put(Vec::new(), b"v".to_vec()), Err(Errors::KeyIsEmpty));
    assert_eq!(engine.delete(Vec::new()), Err(Errors::KeyIsEmpty));
    assert_eq!(engine.get(Vec::new()), Err(Errors::KeyIsEmpty));
    // No record was written by any of the rejected calls.
    assert_eq!(engine.active_write_off(), 0);
}

#[test]
fn test_delete_absent_key_writes_nothing() {
    let mut engine = Engine::open(test_options(4096, false)).unwrap();
    assert_eq!(engine.delete(b"ghost".to_vec()), Ok(()));
    assert_eq!(engine.active_write_off(), 0);
}

#[test]
fn test_rotation() {
    // Each record encodes to 20 bytes: 7 framing bytes, a 5-byte key
    // and an 8-byte value. Three fit under the 64-byte threshold.
    let mut engine = Engine::open(test_options(64, false)).unwrap();
    for i in 0..10u32 {
        let key = format!("key-{}", i).into_bytes();
        assert_eq!(key.len(), 5);
        engine.put(key, b"8-bytes!".to_vec()).unwrap();
    }
    let segments = engine.segments();
    assert!(segments.len() >= 3);
    for (_, data) in segments.iter().take(segments.len() - 1) {
        assert!(data.len() <= 64);
    }
    for i in 0..10u32 {
        let key = format!("key-{}", i).into_bytes();
        assert_eq!(engine.get(key).unwrap(), b"8-bytes!".to_vec());
    }
}

#[test]
fn test_oversize_record_stands_alone() {
    let mut engine = Engine::open(test_options(16, false)).unwrap();
    engine.put(b"small".to_vec(), b"v".to_vec()).unwrap();
    engine.put(b"big".to_vec(), vec![7u8; 100]).unwrap();
    engine.put(b"after".to_vec(), b"w".to_vec()).unwrap();
    assert_eq!(engine.get(b"small".to_vec()).unwrap(), b"v".to_vec());
    assert_eq!(engine.get(b"big".to_vec()).unwrap(), vec![7u8; 100]);
    assert_eq!(engine.get(b"after".to_vec()).unwrap(), b"w".to_vec());
}

#[test]
fn test_crash_recovery() {
    let mut engine = Engine::open(test_options(4096, true)).unwrap();
    engine.put(b"k".to_vec(), b"a".to_vec()).unwrap();
    engine.put(b"k".to_vec(), b"bb".to_vec()).unwrap();
    engine.put(b"k".to_vec(), b"ccc".to_vec()).unwrap();
    let segments = engine.segments();
    drop(engine);

    let reopened = Engine::open_from(test_options(4096, true), segments).unwrap();
    assert_eq!(reopened.get(b"k".to_vec()).unwrap(), b"ccc".to_vec());
    assert_eq!(reopened.active_write_off(), 30);
}

#[test]
fn test_reopen_after_mixed_operations() {
    let mut engine = Engine::open(test_options(64, false)).unwrap();
    engine.put(b"alpha".to_vec(), b"1".to_vec()).unwrap();
    engine.put(b"beta".to_vec(), b"2".to_vec()).unwrap();
    engine.put(b"gamma".to_vec(), b"3".to_vec()).unwrap();
    engine.delete(b"beta".to_vec()).unwrap();
    engine.put(b"alpha".to_vec(), b"one".to_vec()).unwrap();
    let segments = engine.segments();
    drop(engine);

    let reopened = Engine::open_from(test_options(64, false), segments).unwrap();
    assert_eq!(reopened.get(b"alpha".to_vec()).unwrap(), b"one".to_vec());
    assert_eq!(reopened.get(b"beta".to_vec()), Err(Errors::KeyNotFound));
    assert_eq!(reopened.get(b"gamma".to_vec()).unwrap(), b"3".to_vec());
}

#[test]
fn test_open_rejects_bad_options() {
    let mut opts = test_options(4096, false);
    opts.dir_path = String::new();
    assert!(matches!(Engine::open(opts), Err(Errors::DirPathIsEmpty)));

    let opts2 = test_options(0, false);
    assert!(matches!(Engine::open(opts2), Err(Errors::DataFileSizeTooSmall)));
}

#[test]
fn test_open_refuses_corrupt_segment_when_synced() {
    let mut engine = Engine::open(test_options(4096, true)).unwrap();
    engine.put(b"k".to_vec(), b"v".to_vec()).unwrap();
    let mut segments = engine.segments();
    // Flip a byte in the only record.
    let last = segments.len() - 1;
    segments[last].1[3] ^= 0xff;
    let reopened = Engine::open_from(test_options(4096, true), segments);
    assert!(matches!(reopened, Err(Errors::CorruptRecord)));
}

#[test]
fn test_open_truncates_torn_tail_when_unsynced() {
    let mut engine = Engine::open(test_options(4096, false)).unwrap();
    engine.put(b"k1".to_vec(), b"v1".to_vec()).unwrap();
    engine.put(b"k2".to_vec(), b"v2".to_vec()).unwrap();
    let mut segments = engine.segments();
    // Tear the newest record in half, as a crash mid-append would.
    let last = segments.len() - 1;
    let keep = segments[last].1.len() - 5;
    segments[last].1.truncate(keep);
    let reopened = Engine::open_from(test_options(4096, false), segments).unwrap();
    assert_eq!(reopened.get(b"k1".to_vec()).unwrap(), b"v1".to_vec());
    assert_eq!(reopened.get(b"k2".to_vec()), Err(Errors::KeyNotFound));
    // The torn bytes are gone: only the first whole record remains.
    assert_eq!(reopened.active_write_off(), 11);
}

#[test]
fn test_error_messages() {
    assert_eq!(Errors::KeyIsEmpty.message(), "the key is empty");
    assert_eq!(Errors::KeyNotFound.message(), "key is not found in database");
    assert_eq!(
        Errors::DataFileNotFound.message(),
        "data file is not found in database"
    );
    assert_eq!(
        Errors::IndexUpdateFailed.message(),
        "memory index failed to update"
    );
    assert_eq!(
        Errors::FailedToReadFromDataFile.message(),
        "failed to read from data file"
    );
}
