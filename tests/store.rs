use simpledb::record::{decode_record, encode_record, read_line, Line};
use simpledb::{DbError, SimpleDB};

fn empty() -> SimpleDB {
    match SimpleDB::open("test.data", Vec::new()) {
        Ok(db) => db,
        Err(_) => panic!("an empty log must open"),
    }
}

fn reopen(db: &SimpleDB) -> Result<SimpleDB, DbError> {
    SimpleDB::open(db.path(), db.log().to_vec())
}

fn lines(log: &[u8]) -> usize {
    log.iter().filter(|b| **b == b'\n').count()
}

#[test]
fn get_after_set() {
    let mut db = empty();
    assert_eq!(db.set("k".to_string(), "v".to_string()), Ok(0));
    assert_eq!(db.get("k"), Ok("v".to_string()));
}

#[test]
fn last_write_wins() {
    let mut db = empty();
    db.set("k".to_string(), "v1".to_string()).unwrap();
    db.set("k".to_string(), "v2".to_string()).unwrap();
    assert_eq!(db.get("k"), Ok("v2".to_string()));
}

#[test]
fn unset_key_is_not_found() {
    let mut db = empty();
    db.set("other".to_string(), "x".to_string()).unwrap();
    assert_eq!(db.get("missing"), Err(DbError::NotFound));
    assert_eq!(db.delete("missing"), Err(DbError::NotFound));
}

#[test]
fn delete_then_set_again() {
    let mut db = empty();
    db.set("k".to_string(), "v1".to_string()).unwrap();
    assert_eq!(db.delete("k"), Ok(()));
    assert_eq!(db.get("k"), Err(DbError::NotFound));
    assert_eq!(db.delete("k"), Err(DbError::NotFound));
    db.set("k".to_string(), "v3".to_string()).unwrap();
    assert_eq!(db.get("k"), Ok("v3".to_string()));
}

#[test]
fn reopen_gives_same_values() {
    let mut db = empty();
    db.set("x".to_string(), "1".to_string()).unwrap();
    db.set("y".to_string(), "2".to_string()).unwrap();
    db.set("x".to_string(), "3".to_string()).unwrap();
    db.set("z".to_string(), "line\nbreak \"quoted\"".to_string()).unwrap();
    let again = reopen(&db).unwrap();
    for k in ["x", "y", "z", "w"] {
        assert_eq!(again.get(k), db.get(k));
    }
    assert_eq!(again.get("z"), Ok("line\nbreak \"quoted\"".to_string()));
}

#[test]
fn scenario_reopen_after_sets_and_delete() {
    let mut db = empty();
    db.set("a".to_string(), "1".to_string()).unwrap();
    db.set("b".to_string(), "2".to_string()).unwrap();
    db.set("a".to_string(), "3".to_string()).unwrap();
    db.delete("b").unwrap();
    assert_eq!(db.get("b"), Err(DbError::NotFound));
    let again = reopen(&db).unwrap();
    assert_eq!(again.get("a"), Ok("3".to_string()));
    // The log holds no record of the delete, so replay finds b's record again.
    assert_eq!(again.get("b"), Ok("2".to_string()));
    assert_eq!(lines(again.log()), 3);
}

#[test]
fn corrupt_line_fails_open() {
    let mut log = b"{\"key\":\"a\",\"value\":\"1\"}\n".to_vec();
    log.extend_from_slice(b"not json\n");
    log.extend_from_slice(b"{\"key\":\"b\",\"value\":\"2\"}\n");
    assert!(matches!(SimpleDB::open("p", log), Err(DbError::DataCorruption)));
}

#[test]
fn object_without_value_is_corrupt() {
    let log = b"{\"key\":\"a\"}\n".to_vec();
    assert!(matches!(SimpleDB::open("p", log), Err(DbError::DataCorruption)));
    let log = b"{\"key\":\"a\",\"value\":7}\n".to_vec();
    assert!(matches!(SimpleDB::open("p", log), Err(DbError::DataCorruption)));
}

#[test]
fn blank_lines_are_skipped_and_offsets_count_them() {
    let log = b"\n   \n{\"key\":\"a\",\"value\":\"1\"}\n\r\n{\"value\":\"2\", \"key\":\"b\"}\n".to_vec();
    let mut db = SimpleDB::open("p", log).unwrap();
    assert_eq!(db.get("a"), Ok("1".to_string()));
    assert_eq!(db.get("b"), Ok("2".to_string()));
    let before = db.log().len() as u64;
    assert_eq!(db.set("c".to_string(), "3".to_string()), Ok(before));
    assert_eq!(db.get("c"), Ok("3".to_string()));
}

#[test]
fn last_line_without_newline_still_loads() {
    let log = b"{\"key\":\"a\",\"value\":\"1\"}\n{\"key\":\"a\",\"value\":\"2\"}".to_vec();
    let db = SimpleDB::open("p", log).unwrap();
    assert_eq!(db.get("a"), Ok("2".to_string()));
}

#[test]
fn empty_key_and_value() {
    let mut db = empty();
    db.set(String::new(), String::new()).unwrap();
    assert_eq!(db.get(""), Ok(String::new()));
    let again = reopen(&db).unwrap();
    assert_eq!(again.get(""), Ok(String::new()));
}

#[test]
fn set_appends_one_json_line() {
    let mut db = empty();
    db.set("a".to_string(), "1".to_string()).unwrap();
    assert_eq!(db.log(), b"{\"key\":\"a\",\"value\":\"1\"}\n");
    let off = db.set("b".to_string(), "2".to_string()).unwrap();
    assert_eq!(off, 24);
    assert_eq!(&db.log()[24..], b"{\"key\":\"b\",\"value\":\"2\"}\n");
    assert_eq!(db.path(), "test.data");
}

#[test]
fn record_text_round_trips() {
    let text = encode_record("k\"ey", "va\\lue\n").unwrap();
    assert_eq!(text, b"{\"key\":\"k\\\"ey\",\"value\":\"va\\\\lue\\n\"}".to_vec());
    let pair = decode_record(std::str::from_utf8(&text).unwrap()).unwrap();
    assert_eq!(pair.key, "k\"ey");
    assert_eq!(pair.value, "va\\lue\n");
    assert!(decode_record("{\"key\":\"a\",\"value\":\"b\"").is_none());
}

#[test]
fn first_set_on_empty_store() {
    let mut db = empty();
    assert_eq!(db.set("a".to_string(), "1".to_string()), Ok(0));
    assert_eq!(db.log(), b"{\"key\":\"a\",\"value\":\"1\"}\n");
    assert_eq!(db.log().len(), 24);
    assert_eq!(db.offset_of("a"), Some(0));
    assert_eq!(db.offset_of("b"), None);
}

#[test]
fn unicode_white_space_lines_are_blank() {
    let mut log = "\u{3000}\u{a0}\n".as_bytes().to_vec();
    log.extend_from_slice("{\"key\":\"a\",\"value\":\"1\"}\u{a0}\u{2028}\r\n".as_bytes());
    log.extend_from_slice("\u{2028}\n".as_bytes());
    let db = SimpleDB::open("p", log).unwrap();
    assert_eq!(db.get("a"), Ok("1".to_string()));
    assert_eq!(db.offset_of("a"), Some(6));
}

#[test]
fn invalid_utf8_line_is_corrupt() {
    let log = b"{\"key\":\"a\",\"value\":\"1\"}\n\xff\xfe\n".to_vec();
    assert!(matches!(SimpleDB::open("p", log), Err(DbError::DataCorruption)));
    assert!(matches!(read_line(b"\xff"), Line::Malformed));
    assert!(matches!(read_line(b" \t\r"), Line::Blank));
    assert!(matches!(read_line(b"[1]"), Line::Malformed));
}
