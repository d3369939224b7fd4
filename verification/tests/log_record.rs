use bitcask::data::data_file::{get_data_file_name, DataFile};
use bitcask::data::log_record::{LogRecord, LogRecordType};
use bitcask::errors::Errors;

#[test]
fn test_log_record_encode_and_crc() {
    let rec1 = LogRecord {
        key: "name".as_bytes().to_vec(),
        value: "bitcask-rs".as_bytes().to_vec(),
        rec_type: LogRecordType::NORMAL,
    };
    let enc1 = rec1.encode();
    assert!(enc1.len() > 5);
    assert_eq!(1020360578, rec1.get_crc());

    let rec2 = LogRecord {
        key: "name".as_bytes().to_vec(),
        value: Default::default(),
        rec_type: LogRecordType::NORMAL,
    };
    let enc2 = rec2.encode();
    assert!(enc2.len() > 5);
    assert_eq!(3756865478, rec2.get_crc());

    let rec3 = LogRecord {
        key: "name".as_bytes().to_vec(),
        value: "bitcask-rs".as_bytes().to_vec(),
        rec_type: LogRecordType::DELETED,
    };
    let enc3 = rec3.encode();
    assert!(enc3.len() > 5);
    assert_eq!(1867197446, rec3.get_crc());
}

#[test]
fn test_read_log_record_round_trip() {
    let rec = LogRecord {
        key: "name".as_bytes().to_vec(),
        value: "bitcask-rs-kv".as_bytes().to_vec(),
        rec_type: LogRecordType::NORMAL,
    };
    let bytes = rec.encode();
    let n = bytes.len() as u64;
    let file = DataFile::new(7, bytes);
    let read = file.read_log_record(0).expect("whole record reads back");
    assert_eq!(read.record.key, "name".as_bytes().to_vec());
    assert_eq!(read.record.value, "bitcask-rs-kv".as_bytes().to_vec());
    assert_eq!(read.record.rec_type, LogRecordType::NORMAL);
    assert_eq!(read.size, n);
    // past the record only the end-of-file sentinel remains
    assert!(matches!(
        file.read_log_record(n),
        Err(Errors::ReadDataFileEOF)
    ));
}

#[test]
fn test_read_log_record_detects_tampering() {
    let rec = LogRecord {
        key: "name".as_bytes().to_vec(),
        value: "bitcask-rs-kv".as_bytes().to_vec(),
        rec_type: LogRecordType::NORMAL,
    };
    let mut bytes = rec.encode();
    let flip = bytes.len() - 5;  // last byte of the value region
    bytes[flip] ^= 0x01;
    let file = DataFile::new(7, bytes);
    assert!(matches!(
        file.read_log_record(0),
        Err(Errors::InvalidLogRecordCrc)
    ));
}

#[test]
fn test_encode_length_matches_encoding() {
    let rec = LogRecord {
        key: "k".as_bytes().to_vec(),
        value: vec![0u8; 200],
        rec_type: LogRecordType::NORMAL,
    };
    assert_eq!(rec.encode_length(), rec.encode().len());
    assert_eq!(bitcask::data::log_record::max_log_record_header_size(), 11);
}

#[test]
fn test_data_file_name_format() {
    assert_eq!(get_data_file_name(0), "000000000.data".as_bytes().to_vec());
    assert_eq!(get_data_file_name(42), "000000042.data".as_bytes().to_vec());
    assert_eq!(
        get_data_file_name(4294967295),
        "4294967295.data".as_bytes().to_vec()
    );
}

#[test]
fn test_key_framing_round_trip() {
    let key = "user-key".as_bytes().to_vec();
    let framed = bitcask::batch::log_record_key_with_seq(&key, 300);
    let (back, seq) = bitcask::batch::parse_log_record_key(&framed).expect("framed key parses");
    assert_eq!(back, key);
    assert_eq!(seq, 300);
}
