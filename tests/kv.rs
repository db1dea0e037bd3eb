use mini_kv::codec::{try_read_frame, ProtocolError};
use mini_kv::command::Command;
use mini_kv::connection::{next_event, respond, Next};
use mini_kv::frame::{write_decimal, write_frame, Frame};
use mini_kv::state::{AppState, Creds, Limit, LoggingLayer};
use mini_kv::store::Store;

fn bulk(s: &str) -> Frame {
    Frame::Bulk(s.as_bytes().to_vec())
}

fn request(parts: &[&str]) -> Frame {
    Frame::Array(parts.iter().map(|p| bulk(p)).collect())
}

fn encoded(f: &Frame) -> Vec<u8> {
    let mut out = Vec::new();
    write_frame(f, &mut out);
    out
}

fn is_bulk(f: &Frame, s: &str) -> bool {
    matches!(f, Frame::Bulk(b) if b.as_slice() == s.as_bytes())
}

fn is_simple(f: &Frame, s: &str) -> bool {
    matches!(f, Frame::Simple(b) if b.as_slice() == s.as_bytes())
}

fn is_error(f: &Frame) -> bool {
    matches!(f, Frame::Error(_))
}

#[test]
fn encodes_each_kind() {
    assert_eq!(encoded(&Frame::Simple(b"OK".to_vec())), b"+OK\r\n".to_vec());
    assert_eq!(encoded(&Frame::Error(b"ERR x".to_vec())), b"-ERR x\r\n".to_vec());
    assert_eq!(encoded(&Frame::Integer(-42)), b":-42\r\n".to_vec());
    assert_eq!(encoded(&Frame::Integer(0)), b":0\r\n".to_vec());
    assert_eq!(encoded(&bulk("hello")), b"$5\r\nhello\r\n".to_vec());
    assert_eq!(encoded(&Frame::Null), b"_\r\n".to_vec());
    assert_eq!(
        encoded(&request(&["GET", "k"])),
        b"*2\r\n$3\r\nGET\r\n$1\r\nk\r\n".to_vec()
    );
}

#[test]
fn encodes_extreme_integers() {
    assert_eq!(encoded(&Frame::Integer(i64::MIN)), b":-9223372036854775808\r\n".to_vec());
    assert_eq!(encoded(&Frame::Integer(i64::MAX)), b":9223372036854775807\r\n".to_vec());
    let mut out = Vec::new();
    write_decimal(1203, &mut out);
    assert_eq!(out, b"1203".to_vec());
}

#[test]
fn decodes_what_it_encodes() {
    let frames = vec![
        Frame::Simple(b"OK".to_vec()),
        Frame::Error(b"bad".to_vec()),
        Frame::Integer(i64::MIN),
        Frame::Integer(77),
        bulk(""),
        Frame::Null,
        Frame::Array(vec![request(&["SET", "a", "b"]), Frame::Integer(3)]),
    ];
    for f in frames {
        let mut buf = encoded(&f);
        let got = try_read_frame(&mut buf).unwrap().unwrap();
        assert_eq!(encoded(&got), encoded(&f));
        assert!(buf.is_empty());
    }
}

#[test]
fn split_frame_decodes_like_whole() {
    let whole = b"*2\r\n$3\r\nGET\r\n$5\r\nhello\r\n".to_vec();
    for cut in 0..whole.len() {
        let mut buf = whole[..cut].to_vec();
        assert!(matches!(try_read_frame(&mut buf), Ok(None)));
        assert_eq!(buf, whole[..cut].to_vec());
        buf.extend_from_slice(&whole[cut..]);
        let got = try_read_frame(&mut buf).unwrap().unwrap();
        assert_eq!(encoded(&got), whole);
        assert!(buf.is_empty());
    }
}

#[test]
fn two_frames_in_one_read() {
    let mut buf = b"+OK\r\n:5\r\nrest".to_vec();
    let a = try_read_frame(&mut buf).unwrap().unwrap();
    assert!(is_simple(&a, "OK"));
    let b = try_read_frame(&mut buf).unwrap().unwrap();
    assert!(matches!(b, Frame::Integer(5)));
    assert_eq!(buf, b"rest".to_vec());
}

#[test]
fn malformed_frames_are_invalid() {
    let cases: Vec<&[u8]> = vec![
        b"!x\r\n",
        b"$abc\r\n",
        b"$3\r\nabcd\r\n",
        b":12a\r\n",
        b":99999999999999999999\r\n",
        b"+a\nb\r\n",
        b"+ab\rc",
        b"_x\r\n",
        b"*1\r\n?\r\n",
    ];
    for c in cases {
        let mut buf = c.to_vec();
        assert!(matches!(try_read_frame(&mut buf), Err(ProtocolError::Invalid)));
        assert_eq!(buf, c.to_vec());
    }
}

#[test]
fn parses_get_and_set_in_any_case() {
    match Command::from_frame(request(&["get", "k"])) {
        Ok(Command::Get { key }) => assert_eq!(key, b"k".to_vec()),
        _ => panic!("expected GET"),
    }
    match Command::from_frame(request(&["SeT", "k", "v"])) {
        Ok(Command::Put { key, value }) => {
            assert_eq!(key, b"k".to_vec());
            assert_eq!(value, b"v".to_vec());
        }
        _ => panic!("expected SET"),
    }
}

#[test]
fn rejects_malformed_commands() {
    let bad = vec![
        request(&["DEL", "k"]),
        request(&["GET"]),
        request(&["GET", "a", "b"]),
        request(&["SET", "k"]),
        Frame::Array(vec![]),
        Frame::Array(vec![bulk("GET"), Frame::Integer(1)]),
        bulk("GET"),
    ];
    for f in bad {
        assert!(matches!(Command::from_frame(f), Err(ProtocolError::UnknownOrMalformed)));
    }
}

#[test]
fn store_overwrites_and_misses() {
    let mut s = Store::new();
    assert_eq!(s.get(b"k"), None);
    s.set(b"k".to_vec(), b"1".to_vec());
    s.set(b"j".to_vec(), b"2".to_vec());
    s.set(b"k".to_vec(), b"3".to_vec());
    assert_eq!(s.get(b"k"), Some(b"3".to_vec()));
    assert_eq!(s.get(b"j"), Some(b"2".to_vec()));
    assert_eq!(s.get(b"x"), None);
}

#[test]
fn set_then_get_returns_value() {
    let mut s = Store::new();
    assert!(is_simple(&respond(&mut s, request(&["SET", "k", "v"])), "OK"));
    assert!(is_bulk(&respond(&mut s, request(&["GET", "k"])), "v"));
}

#[test]
fn get_of_unset_key_is_null() {
    let mut s = Store::new();
    assert!(matches!(respond(&mut s, request(&["GET", "nope"])), Frame::Null));
}

#[test]
fn repeated_set_is_idempotent() {
    let mut s = Store::new();
    for _ in 0..3 {
        assert!(is_simple(&respond(&mut s, request(&["SET", "k", "v"])), "OK"));
    }
    assert!(is_bulk(&respond(&mut s, request(&["GET", "k"])), "v"));
}

#[test]
fn racing_sets_leave_one_value() {
    let mut s = Store::new();
    respond(&mut s, request(&["SET", "k", "v1"]));
    respond(&mut s, request(&["SET", "k", "v2"]));
    assert!(is_bulk(&respond(&mut s, request(&["GET", "k"])), "v2"));
    let mut t = Store::new();
    respond(&mut t, request(&["SET", "k", "v2"]));
    respond(&mut t, request(&["SET", "k", "v1"]));
    assert!(is_bulk(&respond(&mut t, request(&["GET", "k"])), "v1"));
}

#[test]
fn unknown_command_keeps_connection_usable() {
    let mut s = Store::new();
    let mut buf = encoded(&request(&["DEL", "k"]));
    buf.extend(encoded(&request(&["SET", "k", "v"])));
    buf.extend(encoded(&request(&["GET", "k"])));
    let mut replies = Vec::new();
    loop {
        match next_event(&mut buf, true) {
            Next::Request(f) => replies.push(respond(&mut s, f)),
            Next::Close => break,
            _ => panic!("unexpected step"),
        }
    }
    assert_eq!(replies.len(), 3);
    assert!(is_error(&replies[0]));
    assert_eq!(encoded(&replies[0]), b"-ERR unknown command\r\n".to_vec());
    assert!(is_simple(&replies[1], "OK"));
    assert!(is_bulk(&replies[2], "v"));
}

#[test]
fn truncated_frame_then_close_sends_nothing() {
    let mut s = Store::new();
    respond(&mut s, request(&["SET", "k", "v"]));
    let mut buf = b"*3\r\n$3\r\nSET\r\n$1\r\nk\r\n$1".to_vec();
    assert!(matches!(next_event(&mut buf, false), Next::ReadMore));
    assert!(matches!(next_event(&mut buf, true), Next::Close));
    assert!(is_bulk(&respond(&mut s, request(&["GET", "k"])), "v"));
}

#[test]
fn invalid_frame_fails_the_connection() {
    let mut buf = b"?what\r\n".to_vec();
    match next_event(&mut buf, false) {
        Next::Fail(f) => assert_eq!(encoded(&f), b"-ERR invalid frame\r\n".to_vec()),
        _ => panic!("expected failure"),
    }
}

#[test]
fn empty_buffer_at_end_closes() {
    let mut buf = Vec::new();
    assert!(matches!(next_event(&mut buf, true), Next::Close));
    assert!(matches!(next_event(&mut buf, false), Next::ReadMore));
}

#[test]
fn app_state_counts_requests() {
    let mut st = AppState::new();
    assert_eq!(st.get_request(), 0);
    st.increment_requests();
    st.increment_requests();
    assert_eq!(st.get_request(), 2);
}

#[test]
fn plain_http_types() {
    let l = Limit { li: 1, hi: u32::MAX };
    assert_eq!(l.hi, u32::MAX);
    let c = Creds { id: 1, name: "abc".to_string(), email: "a@b".to_string() };
    assert_eq!(c.id, 1);
    assert_eq!(c.name.len() + c.email.len(), 6);
    let m = LoggingLayer.layer(5u8);
    assert_eq!(m.inner, 5);
}

#[test]
fn counter_increments() {
    let mut c = mini_kv::state::CanIncrement { value: -1 };
    c.increment();
    c.increment();
    assert_eq!(c.value, 1);
}

#[test]
fn length_limits() {
    let mut over = b"$9223372036854775808\r\n".to_vec();
    assert!(matches!(try_read_frame(&mut over), Err(ProtocolError::Invalid)));
    let mut at = b"$9223372036854775807\r\nab".to_vec();
    assert!(matches!(try_read_frame(&mut at), Ok(None)));
    let mut count = b"*9223372036854775807\r\n:1\r\n".to_vec();
    assert!(matches!(try_read_frame(&mut count), Ok(None)));
    let mut neg = b":-9223372036854775809\r\n".to_vec();
    assert!(matches!(try_read_frame(&mut neg), Err(ProtocolError::Invalid)));
}

#[test]
fn empty_array_and_nested_arrays() {
    let mut buf = b"*0\r\n*2\r\n*1\r\n_\r\n+x\r\n".to_vec();
    assert!(matches!(try_read_frame(&mut buf), Ok(Some(Frame::Array(v))) if v.is_empty()));
    match try_read_frame(&mut buf) {
        Ok(Some(Frame::Array(v))) => {
            assert_eq!(v.len(), 2);
            assert!(matches!(&v[0], Frame::Array(w) if w.len() == 1 && matches!(w[0], Frame::Null)));
            assert!(is_simple(&v[1], "x"));
        }
        _ => panic!("expected an array"),
    }
    assert!(buf.is_empty());
}
