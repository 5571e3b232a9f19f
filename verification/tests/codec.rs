//! Round trips and streaming behaviour of the frame codec.

use micro_redis::frame::{decode_at, read_step, Decoded, Frame, ReadOutcome};

fn bulk(s: &[u8]) -> Frame {
    Frame::Bulk(s.to_vec())
}

fn simple(s: &str) -> Frame {
    Frame::Simple(String::from(s))
}

fn wire(f: &Frame) -> Vec<u8> {
    assert!(f.wf_check());
    f.to_wire()
}

fn assert_round_trip(f: Frame) {
    let bytes = wire(&f);
    match decode_at(&bytes, 0) {
        Decoded::Complete(g, used) => {
            assert_eq!(g, f);
            assert_eq!(used, bytes.len());
        },
        other => panic!("expected a complete frame, got {:?}", other),
    }
}

#[test]
fn round_trip_simple() {
    assert_round_trip(simple("OK"));
    assert_round_trip(simple(""));
    assert_round_trip(simple("status with spaces"));
}

#[test]
fn round_trip_error() {
    assert_round_trip(Frame::Error(String::from("key holds a different type")));
    assert_round_trip(Frame::Error(String::from("")));
}

#[test]
fn round_trip_integer() {
    assert_round_trip(Frame::Integer(0));
    assert_round_trip(Frame::Integer(1));
    assert_round_trip(Frame::Integer(16));
    assert_round_trip(Frame::Integer(u64::MAX));
}

#[test]
fn round_trip_bulk() {
    assert_round_trip(bulk(b"hello"));
    assert_round_trip(bulk(b""));
    // payload full of protocol marker bytes: binary safety
    assert_round_trip(bulk(b"*2\r\n$3\r\n+OK\r\n:-1\x00\xff\x80"));
    assert_round_trip(bulk(&[13, 10, 13, 10]));
}

#[test]
fn round_trip_null() {
    assert_round_trip(Frame::Null);
}

#[test]
fn round_trip_array() {
    assert_round_trip(Frame::Array(vec![]));
    assert_round_trip(Frame::Array(vec![simple("OK"), bulk(b"x\r\ny"), Frame::Null]));
    assert_round_trip(Frame::Array(vec![
        Frame::Integer(7),
        Frame::Array(vec![bulk(b"nested"), Frame::Array(vec![])]),
        Frame::Error(String::from("e")),
    ]));
}

#[test]
fn exact_bytes_of_known_frames() {
    assert_eq!(wire(&simple("OK")), b"+OK\r\n".to_vec());
    assert_eq!(wire(&Frame::Integer(42)), b":42\r\n".to_vec());
    assert_eq!(wire(&bulk(b"abc")), b"$3\r\nabc\r\n".to_vec());
    assert_eq!(wire(&Frame::Null), b"$-1\r\n".to_vec());
    assert_eq!(
        wire(&Frame::Array(vec![bulk(b"GET"), bulk(b"k")])),
        b"*2\r\n$3\r\nGET\r\n$1\r\nk\r\n".to_vec()
    );
}

#[test]
fn every_strict_prefix_is_incomplete() {
    let frames = vec![
        simple("OK"),
        Frame::Integer(1234),
        bulk(b"pay\r\nload"),
        Frame::Null,
        Frame::Array(vec![bulk(b"SET"), bulk(b"k"), bulk(b"v")]),
    ];
    for f in frames {
        let bytes = wire(&f);
        for cut in 0..bytes.len() {
            match decode_at(&bytes[..cut], 0) {
                Decoded::Incomplete => {},
                other => panic!("prefix of length {} gave {:?}", cut, other),
            }
        }
    }
}

#[test]
fn malformed_inputs_are_refused() {
    // unknown tag byte
    assert_eq!(decode_at(b"X\r\n", 0), Decoded::Malformed);
    // non-digit in an integer
    assert_eq!(decode_at(b":12x\r\n", 0), Decoded::Malformed);
    // empty integer
    assert_eq!(decode_at(b":\r\n", 0), Decoded::Malformed);
    // bad bulk length
    assert_eq!(decode_at(b"$-2\r\n", 0), Decoded::Malformed);
    // CR not followed by LF
    assert_eq!(decode_at(b"+ab\rX\r\n", 0), Decoded::Malformed);
    // bulk payload not followed by the terminator
    assert_eq!(decode_at(b"$2\r\nabXY", 0), Decoded::Malformed);
    // integer overflowing 64 bits
    assert_eq!(decode_at(b":18446744073709551616\r\n", 0), Decoded::Malformed);
}

#[test]
fn incomplete_inputs_ask_for_more() {
    assert_eq!(decode_at(b"", 0), Decoded::Incomplete);
    assert_eq!(decode_at(b"+ab", 0), Decoded::Incomplete);
    assert_eq!(decode_at(b"+ab\r", 0), Decoded::Incomplete);
    assert_eq!(decode_at(b"$5\r\nab", 0), Decoded::Incomplete);
    assert_eq!(decode_at(b"*2\r\n+OK\r\n", 0), Decoded::Incomplete);
}

#[test]
fn decode_leaves_trailing_bytes() {
    let mut bytes = wire(&simple("OK"));
    let tail = wire(&Frame::Integer(7));
    bytes.extend_from_slice(&tail);
    match decode_at(&bytes, 0) {
        Decoded::Complete(f, used) => {
            assert_eq!(f, simple("OK"));
            match decode_at(&bytes, used) {
                Decoded::Complete(g, used2) => {
                    assert_eq!(g, Frame::Integer(7));
                    assert_eq!(used2, bytes.len());
                },
                other => panic!("second frame: {:?}", other),
            }
        },
        other => panic!("first frame: {:?}", other),
    }
}

#[test]
fn read_step_classifies_stream_states() {
    let bytes = wire(&simple("OK"));
    match read_step(&bytes, false) {
        ReadOutcome::Ready(f, used) => {
            assert_eq!(f, simple("OK"));
            assert_eq!(used, bytes.len());
        },
        other => panic!("expected a frame, got {:?}", other),
    }
    assert!(matches!(read_step(b"", true), ReadOutcome::Closed));
    assert!(matches!(read_step(b"+OK", false), ReadOutcome::NeedMore));
    assert!(matches!(read_step(b"+OK", true), ReadOutcome::Truncated));
    assert!(matches!(read_step(b"X", false), ReadOutcome::Corrupt));
}

#[test]
fn wf_check_refuses_unsendable_text() {
    assert!(!simple("bad\r\nline").wf_check());
    assert!(!Frame::Error(String::from("caf\u{e9}")).wf_check());
    assert!(!Frame::Array(vec![simple("ok"), simple("bad\n")]).wf_check());
    assert!(simple("good line").wf_check());
    assert!(bulk(b"\r\n\x00binary is fine").wf_check());
}
