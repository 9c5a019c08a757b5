//! Tests of command parsing and dispatch.

use redis_lite::command::{Command, ParseError};
use redis_lite::protocol;
use redis_lite::protocol::RespValue;
use redis_lite::storage::Database;

#[test]
fn f1() {
    let name = RespValue::BulkString(Some("SET".into()));
    let arg1 = RespValue::BulkString(Some("key1".into()));
    let arg2 = RespValue::BulkString(Some("val1".into()));
    let resp = RespValue::Array(vec![name, arg1, arg2]);

    let cmd = Command::parse(resp.clone());
    let hex = protocol::RespParser::serializer(resp);
    println!("{:?}", cmd);
    println!("{:?}", String::from_utf8(hex));
}

#[test]
fn parse_uppercases_name_and_keeps_args() {
    let resp = RespValue::Array(vec![
        RespValue::BulkString(Some("set".into())),
        RespValue::BulkString(Some("Key".into())),
        RespValue::BulkString(Some("Value".into())),
    ]);
    let cmd = Command::parse(resp).unwrap();
    assert_eq!(cmd.name, b"SET".to_vec());
    assert_eq!(cmd.args, vec![b"Key".to_vec(), b"Value".to_vec()]);
}

#[test]
fn parse_missing_bulk_becomes_empty_arg() {
    let resp = RespValue::Array(vec![
        RespValue::BulkString(Some("ECHO".into())),
        RespValue::Null,
        RespValue::Integer(7),
        RespValue::BulkString(None),
    ]);
    let cmd = Command::parse(resp).unwrap();
    assert_eq!(cmd.args, vec![Vec::new(), Vec::new(), Vec::new()]);
}

#[test]
fn parse_rejects_bad_frames() {
    assert_eq!(
        Command::parse(RespValue::Array(Vec::new())),
        Err(ParseError::EmptyCommand)
    );
    assert_eq!(
        Command::parse(RespValue::Array(vec![RespValue::Integer(1)])),
        Err(ParseError::InvalidName)
    );
    assert_eq!(
        Command::parse(RespValue::Array(vec![RespValue::BulkString(None)])),
        Err(ParseError::InvalidName)
    );
    assert_eq!(
        Command::parse(RespValue::Integer(3)),
        Err(ParseError::InvalidFormat)
    );
}

fn cmd(words: &[&[u8]]) -> Command {
    let frame = RespValue::Array(
        words
            .iter()
            .map(|w| RespValue::BulkString(Some(w.to_vec())))
            .collect(),
    );
    Command::parse(frame).unwrap()
}

#[test]
fn dispatch_ping_and_echo() {
    let mut db = Database::new();
    let r = Command::handle_at(&mut db, &cmd(&[b"PING"]), 0);
    assert_eq!(r, RespValue::SimpleString(b"PONG".to_vec()));
    let r = Command::handle_at(&mut db, &cmd(&[b"ping", b"hey"]), 0);
    assert_eq!(r, RespValue::BulkString(Some(b"hey".to_vec())));
    let r = Command::handle_at(&mut db, &cmd(&[b"ECHO", b"msg"]), 0);
    assert_eq!(r, RespValue::BulkString(Some(b"msg".to_vec())));
    let r = Command::handle_at(&mut db, &cmd(&[b"ECHO"]), 0);
    assert_eq!(
        r,
        RespValue::Error(b"ERR wrong number of arguments".to_vec())
    );
}

#[test]
fn dispatch_unknown_command_quotes_name() {
    let mut db = Database::new();
    let r = Command::handle_at(&mut db, &cmd(&[b"nosuch"]), 0);
    assert_eq!(
        r,
        RespValue::Error(b"ERR unknown command 'NOSUCH'".to_vec())
    );
}

#[test]
fn dispatch_clean_removes_expired() {
    let mut db = Database::new();
    db.set_with_expiretime(b"gone".to_vec(), redis_lite::storage::Value::Str(b"x".to_vec()), Some(50));
    db.set(b"kept".to_vec(), redis_lite::storage::Value::Str(b"y".to_vec()));
    let r = Command::handle_at(&mut db, &cmd(&[b"CLEAN"]), 100);
    assert_eq!(r, RespValue::SimpleString(b"OK".to_vec()));
    assert!(!db.exists_include_expired(b"gone"));
    assert!(db.exists_include_expired(b"kept"));
}

#[test]
fn clocked_handle_runs() {
    let mut db = Database::new();
    let r = Command::handle(&mut db, cmd(&[b"SET", b"k", b"v"]));
    assert_eq!(r, RespValue::SimpleString(b"OK".to_vec()));
    let r = Command::handle(&mut db, cmd(&[b"GET", b"k"]));
    assert_eq!(r, RespValue::BulkString(Some(b"v".to_vec())));
}
