//! The storage engine and the argument walker, exercised directly.

use micro_redis::frame::Frame;
use micro_redis::parse::{Parse, ParseError};
use micro_redis::store::Db;

fn s(text: &str) -> String {
    String::from(text)
}

fn bulk(b: &[u8]) -> Frame {
    Frame::Bulk(b.to_vec())
}

#[test]
fn db_get_set_and_membership() {
    let mut db = Db::new();
    assert!(db.get(&s("k")).is_none());
    assert!(!db.has_entry(&s("k")));
    db.set(s("k"), b"v".to_vec());
    assert_eq!(db.get(&s("k")), Some(b"v".to_vec()));
    assert!(db.has_entry(&s("k")));
    db.set(s("k"), b"w".to_vec());
    assert_eq!(db.get(&s("k")), Some(b"w".to_vec()));
}

#[test]
fn db_select_bounds() {
    let mut db = Db::new();
    for i in 0..16 {
        assert!(db.select_namespace(i).is_ok());
    }
    assert!(db.select_namespace(16).is_err());
    assert!(db.select_namespace(usize::MAX).is_err());
}

#[test]
fn db_namespaces_are_independent() {
    let mut db = Db::new();
    db.set(s("k"), b"zero".to_vec());
    db.select_namespace(3).unwrap();
    assert!(db.get(&s("k")).is_none());
    db.set(s("k"), b"three".to_vec());
    db.select_namespace(0).unwrap();
    assert_eq!(db.get(&s("k")), Some(b"zero".to_vec()));
}

#[test]
fn db_push_lengths_and_wrong_type() {
    let mut db = Db::new();
    assert_eq!(db.rpush(s("L"), b"a".to_vec()), Ok(1));
    assert_eq!(db.rpush(s("L"), b"b".to_vec()), Ok(2));
    assert_eq!(db.lpush(s("L"), b"z".to_vec()), Ok(3));
    db.set(s("k"), b"v".to_vec());
    assert!(db.rpush(s("k"), b"x".to_vec()).is_err());
    assert!(db.lpush(s("k"), b"x".to_vec()).is_err());
}

#[test]
fn db_pop_scans_ends_and_orders() {
    let mut db = Db::new();
    db.rpush(s("L"), b"a".to_vec()).unwrap();
    db.rpush(s("L"), b"b".to_vec()).unwrap();
    db.rpush(s("L"), b"c".to_vec()).unwrap();
    let keys = vec![s("L")];
    assert_eq!(db.blpop(&keys), Some((s("L"), b"a".to_vec())));
    assert_eq!(db.brpop(&keys), Some((s("L"), b"c".to_vec())));
    assert_eq!(db.blpop(&keys), Some((s("L"), b"b".to_vec())));
    assert_eq!(db.blpop(&keys), None);
}

#[test]
fn db_pop_takes_the_first_listed_key_with_data() {
    let mut db = Db::new();
    db.rpush(s("second"), b"2".to_vec()).unwrap();
    let keys = vec![s("first"), s("second")];
    assert_eq!(db.blpop(&keys), Some((s("second"), b"2".to_vec())));
    assert_eq!(db.blpop(&keys), None);
}

#[test]
fn parse_walks_an_array_in_order() {
    let frame = Frame::Array(vec![bulk(b"SET"), bulk(b"key"), Frame::Integer(9)]);
    let mut p = Parse::new(frame).unwrap();
    assert_eq!(p.next_string().unwrap(), s("SET"));
    assert_eq!(p.next_bytes().unwrap(), b"key".to_vec());
    match p.next() {
        Ok(Frame::Integer(9)) => {},
        other => panic!("unexpected element: {:?}", other),
    }
    assert!(p.finish().is_ok());
}

#[test]
fn parse_refuses_non_arrays() {
    assert!(Parse::new(bulk(b"GET k")).is_err());
    assert!(Parse::new(Frame::Null).is_err());
    assert!(Parse::new(Frame::Integer(1)).is_err());
}

#[test]
fn parse_end_of_stream() {
    let mut p = Parse::new(Frame::Array(vec![])).unwrap();
    assert!(matches!(p.next(), Err(ParseError::EndOfStream)));
    assert!(p.finish().is_ok());
}

#[test]
fn parse_finish_refuses_leftovers() {
    let mut p = Parse::new(Frame::Array(vec![bulk(b"a"), bulk(b"b")])).unwrap();
    p.next_string().unwrap();
    assert!(p.finish().is_err());
}

#[test]
fn parse_next_string_accepts_simple_and_utf8_bulk() {
    let frame = Frame::Array(vec![
        Frame::Simple(s("status")),
        bulk("caf\u{e9}".as_bytes()),
        bulk(&[0xff, 0xfe]),
        Frame::Null,
    ]);
    let mut p = Parse::new(frame).unwrap();
    assert_eq!(p.next_string().unwrap(), s("status"));
    assert_eq!(p.next_string().unwrap(), s("caf\u{e9}"));
    // bulk bytes that are not UTF-8 are refused
    assert!(p.next_string().is_err());
    // and so is a frame with no text shape at all
    assert!(p.next_string().is_err());
}

#[test]
fn parse_next_int_reads_decimal() {
    let frame = Frame::Array(vec![
        bulk(b"42"),
        bulk(b"+7"),
        bulk(b"042"),
        bulk(b"18446744073709551615"),
        bulk(b"18446744073709551616"),
        bulk(b"4x"),
        bulk(b""),
    ]);
    let mut p = Parse::new(frame).unwrap();
    assert_eq!(p.next_int().unwrap(), 42);
    assert_eq!(p.next_int().unwrap(), 7);
    assert_eq!(p.next_int().unwrap(), 42);
    assert_eq!(p.next_int().unwrap(), u64::MAX);
    assert!(p.next_int().is_err());
    assert!(p.next_int().is_err());
    assert!(p.next_int().is_err());
}
