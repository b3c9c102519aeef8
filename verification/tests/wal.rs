use rustdb::wal::log::{
    decode_log, encode_delete, encode_index_delete, encode_index_put, encode_put, WALEntry, WalError,
};

#[test]
fn put_record_layout() {
    assert_eq!(encode_put(b"a", b"1"), vec![1, 1, 0, 0, 0, 1, 0, 0, 0, b'a', b'1']);
}

#[test]
fn delete_record_layout() {
    assert_eq!(encode_delete(b"key"), vec![2, 3, 0, 0, 0, b'k', b'e', b'y']);
}

#[test]
fn index_records_layout() {
    assert_eq!(encode_index_put(b"i", b"pk"), vec![3, 1, 0, 0, 0, 2, 0, 0, 0, b'i', b'p', b'k']);
    assert_eq!(encode_index_delete(b""), vec![4, 0, 0, 0, 0]);
}

#[test]
fn long_field_length_is_little_endian() {
    let value = vec![9u8; 300];
    let bytes = encode_put(b"", &value);
    assert_eq!(&bytes[..9], &[1, 0, 0, 0, 0, 44, 1, 0, 0]);
    assert_eq!(bytes.len(), 309);
}

#[test]
fn decode_gives_back_the_records() {
    let mut log = Vec::new();
    log.extend(encode_put(b"k1", b"v1"));
    log.extend(encode_delete(b"k2"));
    log.extend(encode_index_put(b"idx", b"k1"));
    log.extend(encode_index_delete(b"idx"));
    let (entries, error) = decode_log(&log);
    assert!(error.is_none());
    assert_eq!(entries.len(), 4);
    assert!(matches!(&entries[0], WALEntry::Put(k, v) if k == b"k1" && v == b"v1"));
    assert!(matches!(&entries[1], WALEntry::Delete(k) if k == b"k2"));
    assert!(matches!(&entries[2], WALEntry::IndexPut(i, p) if i == b"idx" && p == b"k1"));
    assert!(matches!(&entries[3], WALEntry::IndexDelete(i) if i == b"idx"));
}

#[test]
fn empty_log_has_no_records() {
    let (entries, error) = decode_log(&[]);
    assert!(entries.is_empty() && error.is_none());
}

#[test]
fn unknown_operation_stops_reading() {
    let mut log = encode_delete(b"a");
    log.push(9);
    log.extend(encode_delete(b"b"));
    let (entries, error) = decode_log(&log);
    assert!(error.is_none());
    assert_eq!(entries.len(), 1);
}

#[test]
fn record_cut_short_is_an_error() {
    let log = encode_put(b"key", b"value");
    for cut in 1..log.len() {
        let (entries, error) = decode_log(&log[..cut]);
        assert!(entries.is_empty());
        assert_eq!(error, Some(WalError::Truncated));
    }
}

#[test]
fn complete_records_before_a_cut_are_handed_out() {
    let mut log = encode_put(b"a", b"1");
    log.extend(encode_delete(b"b"));
    let whole = log.len();
    log.extend(encode_put(b"key", b"value"));
    log.truncate(whole + 6);
    let (entries, error) = decode_log(&log);
    assert_eq!(error, Some(WalError::Truncated));
    assert_eq!(entries.len(), 2);
    assert!(matches!(&entries[0], WALEntry::Put(k, v) if k == b"a" && v == b"1"));
    assert!(matches!(&entries[1], WALEntry::Delete(k) if k == b"b"));
}
