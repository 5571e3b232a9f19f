//! The request pipeline end to end: request frames in, reply frames out.

use micro_redis::command::{
    apply_to_namespace, handle_command, poll_pop, poll_pop_ns, respond, select_update, Command,
    Outcome,
};
use micro_redis::frame::Frame;
use micro_redis::store::{Db, Namespace};

fn bulk(s: &[u8]) -> Frame {
    Frame::Bulk(s.to_vec())
}

fn req(parts: Vec<&[u8]>) -> Frame {
    Frame::Array(parts.into_iter().map(bulk).collect())
}

fn ok() -> Frame {
    Frame::Simple(String::from("OK"))
}

fn is_error(f: &Frame) -> bool {
    matches!(f, Frame::Error(_))
}

#[test]
fn set_then_get_returns_the_value() {
    let mut db = Db::new();
    assert_eq!(respond(&mut db, req(vec![b"SET", b"k", b"v"])), ok());
    assert_eq!(respond(&mut db, req(vec![b"GET", b"k"])), bulk(b"v"));
}

#[test]
fn get_of_a_never_set_key_is_null() {
    let mut db = Db::new();
    assert_eq!(respond(&mut db, req(vec![b"GET", b"nothing"])), Frame::Null);
}

#[test]
fn set_overwrites() {
    let mut db = Db::new();
    respond(&mut db, req(vec![b"SET", b"k", b"one"]));
    respond(&mut db, req(vec![b"SET", b"k", b"two"]));
    assert_eq!(respond(&mut db, req(vec![b"GET", b"k"])), bulk(b"two"));
}

#[test]
fn exists_is_zero_before_and_one_after_set() {
    let mut db = Db::new();
    assert_eq!(respond(&mut db, req(vec![b"EXISTS", b"k"])), Frame::Integer(0));
    respond(&mut db, req(vec![b"SET", b"k", b"v"]));
    assert_eq!(respond(&mut db, req(vec![b"EXISTS", b"k"])), Frame::Integer(1));
}

#[test]
fn select_accepts_exactly_the_sixteen_namespaces() {
    let mut db = Db::new();
    for i in 0..16u32 {
        let arg = i.to_string();
        let reply = respond(&mut db, req(vec![b"SELECT", arg.as_bytes()]));
        assert_eq!(reply, ok(), "SELECT {}", i);
    }
    assert!(is_error(&respond(&mut db, req(vec![b"SELECT", b"16"]))));
    assert!(is_error(&respond(&mut db, req(vec![b"SELECT", b"abc"]))));
    assert!(is_error(&respond(&mut db, req(vec![b"SELECT", b"-1"]))));
}

#[test]
fn rpush_then_blpop_is_first_in_first_out() {
    let mut db = Db::new();
    assert_eq!(respond(&mut db, req(vec![b"RPUSH", b"L", b"a"])), Frame::Integer(1));
    assert_eq!(respond(&mut db, req(vec![b"RPUSH", b"L", b"b"])), Frame::Integer(2));
    // the scan keys come first, the timeout in seconds last
    assert_eq!(
        respond(&mut db, req(vec![b"BLPOP", b"L", b"1"])),
        Frame::Array(vec![bulk(b"L"), bulk(b"a")])
    );
    assert_eq!(
        respond(&mut db, req(vec![b"BLPOP", b"L", b"1"])),
        Frame::Array(vec![bulk(b"L"), bulk(b"b")])
    );
    assert_eq!(respond(&mut db, req(vec![b"BLPOP", b"L", b"1"])), Frame::Null);
}

#[test]
fn lpush_then_brpop_mirrors_the_order() {
    let mut db = Db::new();
    assert_eq!(respond(&mut db, req(vec![b"LPUSH", b"L", b"a"])), Frame::Integer(1));
    assert_eq!(respond(&mut db, req(vec![b"LPUSH", b"L", b"b"])), Frame::Integer(2));
    assert_eq!(
        respond(&mut db, req(vec![b"BRPOP", b"L", b"1"])),
        Frame::Array(vec![bulk(b"L"), bulk(b"a")])
    );
    assert_eq!(
        respond(&mut db, req(vec![b"BRPOP", b"L", b"1"])),
        Frame::Array(vec![bulk(b"L"), bulk(b"b")])
    );
}

#[test]
fn blpop_scans_keys_in_listed_order() {
    let mut db = Db::new();
    respond(&mut db, req(vec![b"RPUSH", b"B", b"vb"]));
    respond(&mut db, req(vec![b"RPUSH", b"A", b"va"]));
    // A is listed first and has data, so A wins even though B was filled first
    assert_eq!(
        respond(&mut db, req(vec![b"BLPOP", b"A", b"B", b"1"])),
        Frame::Array(vec![bulk(b"A"), bulk(b"va")])
    );
    assert_eq!(
        respond(&mut db, req(vec![b"BLPOP", b"A", b"B", b"1"])),
        Frame::Array(vec![bulk(b"B"), bulk(b"vb")])
    );
}

#[test]
fn push_on_a_string_key_fails_and_leaves_the_entry() {
    let mut db = Db::new();
    respond(&mut db, req(vec![b"SET", b"k", b"v"]));
    assert!(is_error(&respond(&mut db, req(vec![b"RPUSH", b"k", b"x"]))));
    assert!(is_error(&respond(&mut db, req(vec![b"LPUSH", b"k", b"x"]))));
    assert_eq!(respond(&mut db, req(vec![b"GET", b"k"])), bulk(b"v"));
}

#[test]
fn set_may_shadow_a_list_but_not_the_reverse() {
    let mut db = Db::new();
    respond(&mut db, req(vec![b"RPUSH", b"L", b"a"]));
    assert_eq!(respond(&mut db, req(vec![b"SET", b"L", b"s"])), ok());
    assert_eq!(respond(&mut db, req(vec![b"GET", b"L"])), bulk(b"s"));
    // now the key holds a string entry, so further pushes are refused
    assert!(is_error(&respond(&mut db, req(vec![b"RPUSH", b"L", b"b"]))));
    // the earlier list is still there for the pops
    assert_eq!(
        respond(&mut db, req(vec![b"BLPOP", b"L", b"1"])),
        Frame::Array(vec![bulk(b"L"), bulk(b"a")])
    );
}

#[test]
fn blpop_with_no_data_is_null_after_the_wait() {
    let mut db = Db::new();
    assert_eq!(respond(&mut db, req(vec![b"BLPOP", b"nokey", b"0.1"])), Frame::Null);
    // a zero timeout never scans at all
    assert_eq!(respond(&mut db, req(vec![b"BLPOP", b"nokey", b"0"])), Frame::Null);
}

#[test]
fn blpop_argument_errors() {
    let mut db = Db::new();
    // no keys at all
    assert!(is_error(&respond(&mut db, req(vec![b"BLPOP", b"1"]))));
    // timeout that is not a number
    assert!(is_error(&respond(&mut db, req(vec![b"BLPOP", b"L", b"soon"]))));
    assert!(is_error(&respond(&mut db, req(vec![b"BLPOP", b"L", b"."]))));
    // missing timeout
    assert!(is_error(&respond(&mut db, req(vec![b"BLPOP"]))));
    // a timeout in front of the keys is a key plus a non-numeric timeout
    assert!(is_error(&respond(&mut db, req(vec![b"BLPOP", b"1", b"L"]))));
}

#[test]
fn fractional_timeouts_parse() {
    let mut db = Db::new();
    assert_eq!(respond(&mut db, req(vec![b"BLPOP", b"k", b"0.05"])), Frame::Null);
    assert_eq!(respond(&mut db, req(vec![b"BLPOP", b"k", b"1.5"])), Frame::Null);
    assert_eq!(respond(&mut db, req(vec![b"BLPOP", b"k", b".5"])), Frame::Null);
    assert_eq!(respond(&mut db, req(vec![b"BLPOP", b"k", b"2."])), Frame::Null);
}

#[test]
fn select_interference_is_process_wide() {
    let mut db = Db::new();
    respond(&mut db, req(vec![b"SELECT", b"1"]));
    respond(&mut db, req(vec![b"SET", b"k", b"one"]));
    // what another connection's SELECT does is visible to everyone
    respond(&mut db, req(vec![b"SELECT", b"0"]));
    assert_eq!(respond(&mut db, req(vec![b"GET", b"k"])), Frame::Null);
    respond(&mut db, req(vec![b"SELECT", b"1"]));
    assert_eq!(respond(&mut db, req(vec![b"GET", b"k"])), bulk(b"one"));
}

#[test]
fn namespaces_do_not_leak_into_each_other() {
    let mut db = Db::new();
    respond(&mut db, req(vec![b"SET", b"shared", b"zero"]));
    respond(&mut db, req(vec![b"SELECT", b"5"]));
    assert_eq!(respond(&mut db, req(vec![b"GET", b"shared"])), Frame::Null);
    respond(&mut db, req(vec![b"SET", b"shared", b"five"]));
    respond(&mut db, req(vec![b"SELECT", b"0"]));
    assert_eq!(respond(&mut db, req(vec![b"GET", b"shared"])), bulk(b"zero"));
}

#[test]
fn ping_answers_pong_in_any_case() {
    let mut db = Db::new();
    assert_eq!(respond(&mut db, req(vec![b"PING"])), Frame::Simple(String::from("PONG")));
    assert_eq!(respond(&mut db, req(vec![b"ping"])), Frame::Simple(String::from("PONG")));
    assert_eq!(respond(&mut db, req(vec![b"PiNg"])), Frame::Simple(String::from("PONG")));
}

#[test]
fn verbs_are_case_insensitive() {
    let mut db = Db::new();
    assert_eq!(respond(&mut db, req(vec![b"set", b"k", b"v"])), ok());
    assert_eq!(respond(&mut db, req(vec![b"get", b"k"])), bulk(b"v"));
}

#[test]
fn request_shape_errors_are_replied_not_fatal() {
    let mut db = Db::new();
    // not an array at all
    assert!(is_error(&respond(&mut db, bulk(b"GET k"))));
    // unknown verb
    assert!(is_error(&respond(&mut db, req(vec![b"FLUSH", b"k"]))));
    // wrong arity
    assert!(is_error(&respond(&mut db, req(vec![b"GET"]))));
    assert!(is_error(&respond(&mut db, req(vec![b"GET", b"k", b"extra"]))));
    assert!(is_error(&respond(&mut db, req(vec![b"SET", b"k"]))));
    // a non-text element where a key is expected
    assert!(is_error(&respond(
        &mut db,
        Frame::Array(vec![bulk(b"GET"), Frame::Integer(3)])
    )));
    // the store still works afterwards
    assert_eq!(respond(&mut db, req(vec![b"SET", b"k", b"v"])), ok());
    assert_eq!(respond(&mut db, req(vec![b"GET", b"k"])), bulk(b"v"));
}

#[test]
fn binary_safe_values_round_trip_through_the_store() {
    let mut db = Db::new();
    let value: &[u8] = b"\r\n$*+:\x00\xfe\xff-1";
    let request = Frame::Array(vec![bulk(b"SET"), bulk(b"bin"), bulk(value)]);
    assert_eq!(respond(&mut db, request), ok());
    assert_eq!(respond(&mut db, req(vec![b"GET", b"bin"])), bulk(value));
}

#[test]
fn pending_pop_polls_until_data_arrives() {
    let mut db = Db::new();
    let pending = match handle_command(&mut db, req(vec![b"BLPOP", b"L", b"1"])) {
        Outcome::WaitPop(p) => p,
        Outcome::Reply(f) => panic!("expected a pending pop, got {:?}", f),
    };
    assert_eq!(pending.timeout_ms, 1000);
    assert!(!pending.from_back);
    // nothing there yet
    assert!(poll_pop(&mut db, &pending).is_none());
    // another client pushes; the next poll finds it
    respond(&mut db, req(vec![b"RPUSH", b"L", b"late"]));
    assert_eq!(
        poll_pop(&mut db, &pending),
        Some(Frame::Array(vec![bulk(b"L"), bulk(b"late")]))
    );
}

#[test]
fn timeouts_convert_to_milliseconds() {
    let mut db = Db::new();
    // half a second becomes five hundred milliseconds
    let pending = match handle_command(&mut db, req(vec![b"BLPOP", b"L", b"0.5"])) {
        Outcome::WaitPop(p) => p,
        Outcome::Reply(f) => panic!("expected a pending pop, got {:?}", f),
    };
    assert_eq!(pending.timeout_ms, 500);
    let pending = match handle_command(&mut db, req(vec![b"BRPOP", b"L", b"2.0625"])) {
        Outcome::WaitPop(p) => p,
        Outcome::Reply(f) => panic!("expected a pending pop, got {:?}", f),
    };
    // the fraction is truncated beyond millisecond precision
    assert_eq!(pending.timeout_ms, 2062);
    assert!(pending.from_back);
}

#[test]
fn select_and_ping_refuse_trailing_arguments() {
    let mut db = Db::new();
    assert!(is_error(&respond(&mut db, req(vec![b"SELECT", b"2", b"extra"]))));
    assert!(is_error(&respond(&mut db, req(vec![b"PING", b"extra"]))));
    // and without the extras both still work
    assert_eq!(respond(&mut db, req(vec![b"SELECT", b"2"])), ok());
    assert_eq!(respond(&mut db, req(vec![b"PING"])), Frame::Simple(String::from("PONG")));
}

#[test]
fn pop_refuses_a_non_text_key_element() {
    let mut db = Db::new();
    respond(&mut db, req(vec![b"RPUSH", b"after", b"v"]));
    // an element that cannot be coerced to text is a parse error
    let request = Frame::Array(vec![
        bulk(b"BLPOP"),
        bulk(b"before"),
        Frame::Integer(9),
        bulk(b"after"),
        bulk(b"1"),
    ]);
    assert!(is_error(&respond(&mut db, request)));
    // the list pushed above is untouched
    assert_eq!(
        respond(&mut db, req(vec![b"BLPOP", b"after", b"1"])),
        Frame::Array(vec![bulk(b"after"), bulk(b"v")])
    );
}

#[test]
fn huge_timeouts_saturate_rather_than_fail() {
    let mut db = Db::new();
    let request = req(vec![b"BLPOP", b"k", b"99999999999999999999999999"]);
    match handle_command(&mut db, request) {
        Outcome::WaitPop(p) => assert_eq!(p.timeout_ms, u64::MAX),
        Outcome::Reply(f) => panic!("expected a pending pop, got {:?}", f),
    }
}

#[test]
fn per_namespace_dispatch_matches_the_store() {
    // the shared index cell accepts exactly the sixteen shards
    let mut current: usize = 0;
    assert_eq!(select_update(&mut current, 7), ok());
    assert_eq!(current, 7);
    assert!(matches!(select_update(&mut current, 16), Frame::Error(_)));
    assert_eq!(current, 7);

    // one shard, driven directly through the per-namespace entry point
    let mut ns = Namespace::new();
    let reply = apply_to_namespace(&mut ns, Command::SetVal(String::from("k"), b"v".to_vec()));
    assert!(matches!(reply, Outcome::Reply(Frame::Simple(_))));
    match apply_to_namespace(&mut ns, Command::Get(String::from("k"))) {
        Outcome::Reply(f) => assert_eq!(f, bulk(b"v")),
        Outcome::WaitPop(_) => panic!("a GET never waits"),
    }
    match apply_to_namespace(&mut ns, Command::RPush(String::from("L"), b"x".to_vec())) {
        Outcome::Reply(f) => assert_eq!(f, Frame::Integer(1)),
        Outcome::WaitPop(_) => panic!("a push never waits"),
    }

    // a blocking pop with no data becomes a pending wait; a poll after a
    // push finds the data
    let pending = match apply_to_namespace(
        &mut ns,
        Command::BLPop(vec![String::from("M")], 1000),
    ) {
        Outcome::WaitPop(p) => p,
        Outcome::Reply(f) => panic!("expected a pending pop, got {:?}", f),
    };
    assert!(poll_pop_ns(&mut ns, &pending).is_none());
    apply_to_namespace(&mut ns, Command::RPush(String::from("M"), b"late".to_vec()));
    assert_eq!(
        poll_pop_ns(&mut ns, &pending),
        Some(Frame::Array(vec![bulk(b"M"), bulk(b"late")]))
    );
}
