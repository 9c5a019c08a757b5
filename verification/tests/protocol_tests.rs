//! Tests of the RESP codec: exact encodings, resumable decoding, and
//! chunked delivery.

use redis_lite::protocol::{ProtocolError, RespParser, RespValue};

#[test]
fn serializer_encodes_every_reply_variant() {
    assert_eq!(
        RespParser::serializer(RespValue::SimpleString(b"OK".to_vec())),
        b"+OK\r\n".to_vec()
    );
    assert_eq!(
        RespParser::serializer(RespValue::Error(b"ERR boom".to_vec())),
        b"-ERR boom\r\n".to_vec()
    );
    assert_eq!(
        RespParser::serializer(RespValue::Integer(42)),
        b":42\r\n".to_vec()
    );
    assert_eq!(
        RespParser::serializer(RespValue::Integer(-7)),
        b":-7\r\n".to_vec()
    );
    assert_eq!(
        RespParser::serializer(RespValue::Integer(i64::MIN)),
        b":-9223372036854775808\r\n".to_vec()
    );
    assert_eq!(
        RespParser::serializer(RespValue::BulkString(Some(b"val1".to_vec()))),
        b"$4\r\nval1\r\n".to_vec()
    );
    assert_eq!(
        RespParser::serializer(RespValue::BulkString(None)),
        b"$-1\r\n".to_vec()
    );
    assert_eq!(RespParser::serializer(RespValue::Null), b"$-1\r\n".to_vec());
    assert_eq!(
        RespParser::serializer(RespValue::Array(vec![
            RespValue::BulkString(Some(b"a".to_vec())),
            RespValue::BulkString(Some(b"bc".to_vec())),
        ])),
        b"*2\r\n$1\r\na\r\n$2\r\nbc\r\n".to_vec()
    );
    assert_eq!(
        RespParser::serializer(RespValue::Array(Vec::new())),
        b"*0\r\n".to_vec()
    );
}

#[test]
fn parse_decodes_a_complete_frame_and_consumes_it() {
    let mut buf = b"*3\r\n$3\r\nSET\r\n$4\r\nkey1\r\n$4\r\nval1\r\n".to_vec();
    let frame = RespParser::parse(&mut buf).unwrap().unwrap();
    assert_eq!(
        frame,
        RespValue::Array(vec![
            RespValue::BulkString(Some(b"SET".to_vec())),
            RespValue::BulkString(Some(b"key1".to_vec())),
            RespValue::BulkString(Some(b"val1".to_vec())),
        ])
    );
    assert!(buf.is_empty());
}

#[test]
fn parse_keeps_pipelined_tail() {
    let mut buf = b"*1\r\n$4\r\nPING\r\n*1\r\n$4\r\nPI".to_vec();
    let frame = RespParser::parse(&mut buf).unwrap().unwrap();
    assert_eq!(
        frame,
        RespValue::Array(vec![RespValue::BulkString(Some(b"PING".to_vec()))])
    );
    assert_eq!(buf, b"*1\r\n$4\r\nPI".to_vec());
    assert_eq!(RespParser::parse(&mut buf), Ok(None));
    assert_eq!(buf, b"*1\r\n$4\r\nPI".to_vec());
}

#[test]
fn parse_byte_at_a_time_matches_all_at_once() {
    let bytes = b"*3\r\n$3\r\nSET\r\n$4\r\nkey1\r\n$4\r\nval1\r\n".to_vec();

    // all at once
    let mut whole = bytes.clone();
    let frame_whole = RespParser::parse(&mut whole).unwrap().unwrap();

    // one byte per "read"
    let mut buf: Vec<u8> = Vec::new();
    let mut frames: Vec<RespValue> = Vec::new();
    for b in &bytes {
        buf.push(*b);
        while let Some(f) = RespParser::parse(&mut buf).unwrap() {
            frames.push(f);
        }
    }
    assert_eq!(frames.len(), 1);
    assert_eq!(frames[0], frame_whole);
    assert!(buf.is_empty());
}

#[test]
fn parse_incomplete_is_not_an_error() {
    for cut in 0..33 {
        let bytes = &b"*3\r\n$3\r\nSET\r\n$4\r\nkey1\r\n$4\r\nval1\r\n"[..cut];
        let mut buf = bytes.to_vec();
        assert_eq!(RespParser::parse(&mut buf), Ok(None), "cut at {}", cut);
        assert_eq!(buf, bytes.to_vec());
    }
}

#[test]
fn parse_rejects_malformed_framing() {
    // wrong leading sigil
    let mut buf = b"+OK\r\n".to_vec();
    assert_eq!(RespParser::parse(&mut buf), Err(ProtocolError));
    // negative array count
    let mut buf = b"*-1\r\n".to_vec();
    assert_eq!(RespParser::parse(&mut buf), Err(ProtocolError));
    // non-numeric count
    let mut buf = b"*x\r\n".to_vec();
    assert_eq!(RespParser::parse(&mut buf), Err(ProtocolError));
    // missing line feed after count
    let mut buf = b"*1\rx$4\r\nPING\r\n".to_vec();
    assert_eq!(RespParser::parse(&mut buf), Err(ProtocolError));
    // a bulk declared longer than the data seen so far is merely
    // incomplete: more bytes could still arrive
    let mut buf = b"*1\r\n$5\r\nPING\r\n".to_vec();
    assert_eq!(RespParser::parse(&mut buf), Ok(None));
    // bulk not terminated by CRLF
    let mut buf = b"*1\r\n$4\r\nPINGxx".to_vec();
    assert_eq!(RespParser::parse(&mut buf), Err(ProtocolError));
}

#[test]
fn parse_accepts_leading_zero_lengths() {
    let mut buf = b"*01\r\n$04\r\nPING\r\n".to_vec();
    let frame = RespParser::parse(&mut buf).unwrap().unwrap();
    assert_eq!(
        frame,
        RespValue::Array(vec![RespValue::BulkString(Some(b"PING".to_vec()))])
    );
}

#[test]
fn parse_empty_array_frame() {
    let mut buf = b"*0\r\n".to_vec();
    let frame = RespParser::parse(&mut buf).unwrap().unwrap();
    assert_eq!(frame, RespValue::Array(Vec::new()));
    assert!(buf.is_empty());
}

#[test]
fn parse_binary_safe_payload() {
    let mut buf = b"*1\r\n$4\r\n\x00\xff\r\t\r\n".to_vec();
    let frame = RespParser::parse(&mut buf).unwrap().unwrap();
    assert_eq!(
        frame,
        RespValue::Array(vec![RespValue::BulkString(Some(vec![0, 255, 13, 9]))])
    );
}

#[test]
fn clone_preserves_nested_values() {
    let v = RespValue::Array(vec![
        RespValue::Array(vec![RespValue::Integer(1)]),
        RespValue::BulkString(Some(b"x".to_vec())),
    ]);
    assert_eq!(v.clone(), v);
}
