use bitcask::data_file::DataFile;
use bitcask::data_file::parse_data_file_name;
use bitcask::fio::{new_io_manager, IOManager};
use bitcask::errors::Errors;
use bitcask::record::{decode_record, max_log_record_header_size, LogRecord, LogRecordType};

#[test]
fn test_encode_decode_round_trip() {
    let record = LogRecord {
        key: b"name".to_vec(),
        value: b"bitcask".to_vec(),
        rec_type: LogRecordType::NORMAL,
    };
    let encoded = record.encode();
    // 1 tag + 1 key size + 1 value size + 4 key + 7 value + 4 crc.
    assert_eq!(encoded.len(), 18);
    let decoded = decode_record(&encoded, 0).unwrap();
    assert_eq!(decoded.size, encoded.len());
    assert_eq!(decoded.record.key, b"name".to_vec());
    assert_eq!(decoded.record.value, b"bitcask".to_vec());
    assert_eq!(decoded.record.rec_type, LogRecordType::NORMAL);
}

#[test]
fn test_round_trip_tombstone_and_empty_value() {
    let record = LogRecord {
        key: b"gone".to_vec(),
        value: Vec::new(),
        rec_type: LogRecordType::DELETED,
    };
    let encoded = record.encode();
    let decoded = decode_record(&encoded, 0).unwrap();
    assert_eq!(decoded.record.key, b"gone".to_vec());
    assert!(decoded.record.value.is_empty());
    assert_eq!(decoded.record.rec_type, LogRecordType::DELETED);
}

#[test]
fn test_round_trip_long_sizes() {
    // Sizes past 127 take more than one length byte.
    let record = LogRecord {
        key: vec![b'k'; 300],
        value: vec![b'v'; 70000],
        rec_type: LogRecordType::NORMAL,
    };
    let encoded = record.encode();
    assert_eq!(encoded.len(), 1 + 2 + 3 + 300 + 70000 + 4);
    let decoded = decode_record(&encoded, 0).unwrap();
    assert_eq!(decoded.record.key.len(), 300);
    assert_eq!(decoded.record.value.len(), 70000);
    assert_eq!(decoded.size, encoded.len());
}

#[test]
fn test_decode_past_a_prefix() {
    let first = LogRecord {
        key: b"a".to_vec(),
        value: b"1".to_vec(),
        rec_type: LogRecordType::NORMAL,
    };
    let second = LogRecord {
        key: b"b".to_vec(),
        value: b"2".to_vec(),
        rec_type: LogRecordType::NORMAL,
    };
    let mut log = first.encode();
    let off = log.len();
    log.extend_from_slice(&second.encode());
    let d1 = decode_record(&log, 0).unwrap();
    assert_eq!(d1.record.key, b"a".to_vec());
    let d2 = decode_record(&log, off).unwrap();
    assert_eq!(d2.record.key, b"b".to_vec());
    assert_eq!(d2.record.value, b"2".to_vec());
}

#[test]
fn test_single_byte_flip_is_detected() {
    let record = LogRecord {
        key: b"key".to_vec(),
        value: b"value".to_vec(),
        rec_type: LogRecordType::NORMAL,
    };
    let encoded = record.encode();
    for i in 0..encoded.len() {
        let mut bad = encoded.clone();
        bad[i] ^= 0x5a;
        assert_eq!(
            decode_record(&bad, 0).unwrap_err(),
            Errors::CorruptRecord,
            "flip at byte {} went undetected",
            i
        );
    }
}

#[test]
fn test_truncated_record_is_corrupt() {
    let record = LogRecord {
        key: b"key".to_vec(),
        value: b"value".to_vec(),
        rec_type: LogRecordType::NORMAL,
    };
    let encoded = record.encode();
    for cut in 0..encoded.len() {
        let short = &encoded[..cut];
        assert_eq!(decode_record(short, 0).unwrap_err(), Errors::CorruptRecord);
    }
}

#[test]
fn test_get_crc_matches_stored_checksum() {
    let record = LogRecord {
        key: b"abc".to_vec(),
        value: b"def".to_vec(),
        rec_type: LogRecordType::NORMAL,
    };
    let crc = record.get_crc();
    let encoded = record.encode();
    let stored = &encoded[encoded.len() - 4..];
    assert_eq!(stored[0], (crc & 0xff) as u8);
    assert_eq!(stored[1], ((crc >> 8) & 0xff) as u8);
    assert_eq!(stored[2], ((crc >> 16) & 0xff) as u8);
    assert_eq!(stored[3], ((crc >> 24) & 0xff) as u8);
}

#[test]
fn test_from_u8_tags() {
    assert_eq!(LogRecordType::from_u8(1), LogRecordType::NORMAL);
    assert_eq!(LogRecordType::from_u8(2), LogRecordType::DELETED);
    assert_eq!(LogRecordType::NORMAL.tag(), 1);
    assert_eq!(LogRecordType::DELETED.tag(), 2);
}

#[test]
fn test_max_header_size() {
    assert_eq!(max_log_record_header_size(), 11);
}

#[test]
fn test_data_file_read_and_eof() {
    let mut df = DataFile::new(0);
    assert_eq!(df.get_file_id(), 0);
    assert_eq!(df.get_write_off(), 0);
    assert_eq!(
        df.read_log_record(0).unwrap_err(),
        Errors::ReadDataFileEOF
    );

    let record = LogRecord {
        key: b"k".to_vec(),
        value: b"v".to_vec(),
        rec_type: LogRecordType::NORMAL,
    };
    let encoded = record.encode();
    let n = df.write(&encoded).unwrap();
    assert_eq!(n, encoded.len());
    assert_eq!(df.get_write_off(), encoded.len() as u64);

    let rr = df.read_log_record(0).unwrap();
    assert_eq!(rr.record.key, b"k".to_vec());
    assert_eq!(rr.record.value, b"v".to_vec());
    assert_eq!(rr.size, encoded.len());
    assert_eq!(
        df.read_log_record(encoded.len() as u64).unwrap_err(),
        Errors::ReadDataFileEOF
    );
    assert!(df.sync().is_ok());
}

#[test]
fn test_io_manager_capability() {
    let mut io = new_io_manager();
    assert_eq!(io.write(b"hello"), Ok(5));
    assert_eq!(io.read(1, 3), Ok(b"ell".to_vec()));
    assert_eq!(io.read(3, 100), Ok(b"lo".to_vec()));
    assert_eq!(io.read(10, 2), Ok(Vec::new()));
    assert_eq!(io.sync(), Ok(()));
    assert_eq!(io.size(), 5);
}

#[test]
fn test_parse_data_file_name() {
    assert_eq!(parse_data_file_name(b"0.data"), Some(0));
    assert_eq!(parse_data_file_name(b"42.data"), Some(42));
    assert_eq!(parse_data_file_name(b"007.data"), Some(7));
    assert_eq!(parse_data_file_name(b"4294967295.data"), Some(u32::MAX));
    assert_eq!(parse_data_file_name(b"4294967296.data"), None);
    assert_eq!(parse_data_file_name(b"x.data"), None);
    assert_eq!(parse_data_file_name(b"1x2.data"), None);
    assert_eq!(parse_data_file_name(b".data"), None);
    assert_eq!(parse_data_file_name(b"42.txt"), None);
    assert_eq!(parse_data_file_name(b"42"), None);
}
