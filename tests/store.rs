use simple_db::codec::{encode, LogOperation};
use simple_db::index::{same_bytes, KeyIndex};
use simple_db::{Log, LogError, SimpleDB};

fn empty_store() -> SimpleDB {
    SimpleDB::new(Vec::new()).expect("an empty log opens")
}

fn reopen(db: &SimpleDB) -> SimpleDB {
    SimpleDB::new(db.log_bytes().clone()).expect("the store's own log opens")
}

#[test]
fn hello_scenario() {
    let mut db = empty_store();
    assert_eq!(db.put(b"Hello".to_vec(), b"old world".to_vec()), None);
    assert_eq!(
        db.put(b"Hello".to_vec(), b"new world".to_vec()),
        Some(b"old world".to_vec())
    );
    assert_eq!(db.get(b"Hello"), Some(b"new world".to_vec()));
    assert_eq!(db.delete(b"Hello".to_vec()), Some(b"new world".to_vec()));
    assert_eq!(db.get(b"Hello"), None);
}

#[test]
fn put_then_get_round_trips() {
    let mut db = empty_store();
    db.put(b"k".to_vec(), b"v".to_vec());
    db.put(Vec::new(), Vec::new());
    db.put(vec![0, 255, 7], vec![1; 300]);
    assert_eq!(db.get(b"k"), Some(b"v".to_vec()));
    assert_eq!(db.get(&[]), Some(Vec::new()));
    assert_eq!(db.get(&[0, 255, 7]), Some(vec![1; 300]));
    assert_eq!(db.get(b"missing"), None);
}

#[test]
fn overwrite_returns_previous_value() {
    let mut db = empty_store();
    assert_eq!(db.put(b"k".to_vec(), b"v1".to_vec()), None);
    assert_eq!(db.put(b"k".to_vec(), b"v2".to_vec()), Some(b"v1".to_vec()));
    assert_eq!(db.get(b"k"), Some(b"v2".to_vec()));
}

#[test]
fn delete_returns_previous_value() {
    let mut db = empty_store();
    db.put(b"k".to_vec(), b"v".to_vec());
    assert_eq!(db.delete(b"k".to_vec()), Some(b"v".to_vec()));
    assert_eq!(db.get(b"k"), None);
}

#[test]
fn delete_of_absent_key_appends_a_tombstone() {
    let mut db = empty_store();
    assert_eq!(db.delete(b"never".to_vec()), None);
    assert_eq!(db.log_bytes().len(), 1 + 8 + 5);
    assert_eq!(db.get(b"never"), None);
}

#[test]
fn reopen_reproduces_contents() {
    let mut db = empty_store();
    db.put(b"a".to_vec(), b"1".to_vec());
    db.put(b"b".to_vec(), b"2".to_vec());
    db.put(b"a".to_vec(), b"3".to_vec());
    db.delete(b"b".to_vec());
    db.put(b"c".to_vec(), b"4".to_vec());
    let again = reopen(&db);
    assert_eq!(again.get(b"a"), Some(b"3".to_vec()));
    assert_eq!(again.get(b"b"), None);
    assert_eq!(again.get(b"c"), Some(b"4".to_vec()));
    assert_eq!(again.log_bytes(), db.log_bytes());
}

#[test]
fn reopen_after_put_and_delete_shows_them() {
    let mut db = empty_store();
    db.put(b"x".to_vec(), b"1".to_vec());
    assert_eq!(reopen(&db).get(b"x"), Some(b"1".to_vec()));
    db.delete(b"x".to_vec());
    assert_eq!(reopen(&db).get(b"x"), None);
}

#[test]
fn bad_first_byte_is_corrupt() {
    let log = vec![b'x', 0, 0, 0, 0, 0, 0, 0, 0];
    assert_eq!(SimpleDB::new(log).err(), Some(LogError::CorruptLog));
}

#[test]
fn bad_tag_after_valid_record_is_corrupt() {
    let mut bytes = encode(&LogOperation::Put(b"k".to_vec(), b"v".to_vec()));
    bytes.push(b'q');
    assert_eq!(SimpleDB::new(bytes).err(), Some(LogError::CorruptLog));
}

#[test]
fn truncated_record_is_corrupt() {
    let mut bytes = encode(&LogOperation::Put(b"key".to_vec(), b"value".to_vec()));
    bytes.pop();
    assert_eq!(SimpleDB::new(bytes).err(), Some(LogError::CorruptLog));
    assert_eq!(SimpleDB::new(vec![b'd', 0, 0]).err(), Some(LogError::CorruptLog));
}

#[test]
fn put_record_layout() {
    let bytes = encode(&LogOperation::Put(b"ab".to_vec(), b"xyz".to_vec()));
    let expected: Vec<u8> = vec![
        b'p', 0, 0, 0, 0, 0, 0, 0, 2, b'a', b'b', 0, 0, 0, 0, 0, 0, 0, 3, b'x', b'y', b'z',
    ];
    assert_eq!(bytes, expected);
}

#[test]
fn delete_record_layout() {
    let bytes = encode(&LogOperation::Delete(b"ab".to_vec()));
    assert_eq!(bytes, vec![b'd', 0, 0, 0, 0, 0, 0, 0, 2, b'a', b'b']);
}

#[test]
fn length_prefix_is_big_endian() {
    let bytes = encode(&LogOperation::Delete(vec![9; 258]));
    assert_eq!(&bytes[..9], &[b'd', 0, 0, 0, 0, 0, 0, 1, 2]);
}

#[test]
fn append_returns_value_offset() {
    let mut log = Log::new(Vec::new());
    let first = log.append(LogOperation::Put(b"key".to_vec(), b"value".to_vec()));
    assert_eq!(first, 1 + 8 + 3);
    assert_eq!(log.get_value(first), Ok((b"value".to_vec(), 1 + 8 + 3 + 8 + 5)));
    let second = log.append(LogOperation::Delete(b"key".to_vec()));
    assert_eq!(second, 25 + 1 + 8 + 3);
    assert_eq!(log.len(), 37);
}

#[test]
fn get_key_reads_field_and_next_offset() {
    let log = Log::new(encode(&LogOperation::Put(b"key".to_vec(), b"v".to_vec())));
    assert_eq!(log.get_key(1), Ok((b"key".to_vec(), 12)));
    assert_eq!(log.get_value(12), Ok((b"v".to_vec(), 21)));
}

#[test]
fn short_read_is_io_error() {
    let log = Log::new(encode(&LogOperation::Put(b"key".to_vec(), b"v".to_vec())));
    assert_eq!(log.get_value(18), Err(LogError::Io));
    assert_eq!(log.get_key(100), Err(LogError::Io));
    let cut = Log::new(vec![0, 0, 0, 0, 0, 0, 0, 5, 1, 2]);
    assert_eq!(cut.get_key(0), Err(LogError::Io));
}

#[test]
fn replay_builds_index_of_value_offsets() {
    let mut log = Log::new(Vec::new());
    let a = log.append(LogOperation::Put(b"a".to_vec(), b"1".to_vec()));
    let b = log.append(LogOperation::Put(b"b".to_vec(), b"2".to_vec()));
    log.append(LogOperation::Delete(b"a".to_vec()));
    let idx = log.construct_in_memory_cache().expect("valid log");
    assert_eq!(idx.get(b"a"), None);
    assert_eq!(idx.get(b"b"), Some(b));
    assert!(a < b);
}

#[test]
fn key_index_insert_and_remove() {
    let mut idx = KeyIndex::new();
    assert_eq!(idx.insert(b"k".to_vec(), 5), None);
    assert_eq!(idx.insert(b"k".to_vec(), 9), Some(5));
    assert_eq!(idx.get(b"k"), Some(9));
    assert_eq!(idx.remove(b"k"), Some(9));
    assert_eq!(idx.remove(b"k"), None);
    assert_eq!(idx.get(b"k"), None);
}

#[test]
fn byte_comparison() {
    assert!(same_bytes(b"abc", b"abc"));
    assert!(!same_bytes(b"abc", b"abd"));
    assert!(!same_bytes(b"ab", b"abc"));
}
