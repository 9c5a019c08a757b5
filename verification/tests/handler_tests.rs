//! End-to-end tests of the command handlers against the storage engine,
//! with explicit instants for everything expiration-related.

use redis_lite::command::Command;
use redis_lite::protocol::{RespParser, RespValue};
use redis_lite::storage::{Database, Value};

fn cmd(words: &[&[u8]]) -> Command {
    let frame = RespValue::Array(
        words
            .iter()
            .map(|w| RespValue::BulkString(Some(w.to_vec())))
            .collect(),
    );
    Command::parse(frame).unwrap()
}

fn run(db: &mut Database, words: &[&[u8]]) -> RespValue {
    Command::handle_at(db, &cmd(words), 1_000)
}

fn ok() -> RespValue {
    RespValue::SimpleString(b"OK".to_vec())
}

fn bulk(s: &[u8]) -> RespValue {
    RespValue::BulkString(Some(s.to_vec()))
}

fn wrongtype() -> RespValue {
    RespValue::Error(b"WRONGTYPE Operation against a key holding the wrong kind of value".to_vec())
}

fn not_int() -> RespValue {
    RespValue::Error(b"ERR value is not an integer or out of range".to_vec())
}

fn arity() -> RespValue {
    RespValue::Error(b"ERR wrong number of arguments".to_vec())
}

#[test]
fn scenario_set_then_get_over_the_wire() {
    // the client sends one SET frame; the server stores the pair,
    // acknowledges, and a GET answers with the stored text
    let mut db = Database::new();
    let mut buf = b"*3\r\n$3\r\nSET\r\n$4\r\nkey1\r\n$4\r\nval1\r\n".to_vec();
    let frame = RespParser::parse(&mut buf).unwrap().unwrap();
    let command = Command::parse(frame).unwrap();
    let reply = Command::handle_at(&mut db, &command, 1_000);
    assert_eq!(RespParser::serializer(reply), b"+OK\r\n".to_vec());
    assert_eq!(db.get_at(b"key1", 1_000), Some(&Value::Str(b"val1".to_vec())));

    let reply = run(&mut db, &[b"GET", b"key1"]);
    assert_eq!(RespParser::serializer(reply), b"$4\r\nval1\r\n".to_vec());
}

#[test]
fn set_with_ex_and_px_expire() {
    let mut db = Database::new();
    assert_eq!(run(&mut db, &[b"SET", b"k", b"v", b"EX", b"2"]), ok());
    // 2 s from instant 1000 -> expires at 3000
    assert_eq!(db.get_at(b"k", 3_000), Some(&Value::Str(b"v".to_vec())));
    assert_eq!(db.get_at(b"k", 3_001), None);

    assert_eq!(run(&mut db, &[b"SET", b"p", b"w", b"px", b"500"]), ok());
    assert_eq!(db.get_at(b"p", 1_500), Some(&Value::Str(b"w".to_vec())));
    assert_eq!(db.get_at(b"p", 1_501), None);

    assert_eq!(
        run(&mut db, &[b"SET", b"k", b"v", b"EX", b"nope"]),
        RespValue::Error(b"ERR invalid expire time in 'set' command".to_vec())
    );
    assert_eq!(
        run(&mut db, &[b"SET", b"k", b"v", b"XX", b"1"]),
        RespValue::Error(b"ERR syntax error".to_vec())
    );
    assert_eq!(run(&mut db, &[b"SET", b"k"]), arity());
    // a leading plus sign reads as a number, a minus sign does not
    assert_eq!(run(&mut db, &[b"SET", b"q", b"v", b"EX", b"+2"]), ok());
    assert_eq!(
        run(&mut db, &[b"SET", b"q", b"v", b"EX", b"-2"]),
        RespValue::Error(b"ERR invalid expire time in 'set' command".to_vec())
    );
}

#[test]
fn get_wrongtype_and_missing() {
    let mut db = Database::new();
    assert_eq!(run(&mut db, &[b"GET", b"nope"]), RespValue::Null);
    run(&mut db, &[b"LPUSH", b"l", b"x"]);
    assert_eq!(run(&mut db, &[b"GET", b"l"]), wrongtype());
}

#[test]
fn del_arity_asymmetry() {
    // one key answers a plain acknowledgement, several an integer count
    let mut db = Database::new();
    assert_eq!(run(&mut db, &[b"DEL"]), arity());
    run(&mut db, &[b"SET", b"a", b"1"]);
    run(&mut db, &[b"SET", b"b", b"2"]);
    assert_eq!(run(&mut db, &[b"DEL", b"a"]), ok());
    assert_eq!(run(&mut db, &[b"DEL", b"missing"]), ok());
    run(&mut db, &[b"SET", b"c", b"3"]);
    assert_eq!(
        run(&mut db, &[b"DEL", b"b", b"c", b"missing"]),
        RespValue::Integer(2)
    );
}

#[test]
fn exists_counts_live_keys() {
    let mut db = Database::new();
    run(&mut db, &[b"SET", b"a", b"1"]);
    db.set_with_expiretime(b"dead".to_vec(), Value::Str(b"x".to_vec()), Some(10));
    assert_eq!(
        run(&mut db, &[b"EXISTS", b"a", b"dead", b"missing", b"a"]),
        RespValue::Integer(2)
    );
    assert_eq!(run(&mut db, &[b"EXISTS"]), arity());
}

#[test]
fn incr_decr_from_scratch_and_back() {
    let mut db = Database::new();
    assert_eq!(run(&mut db, &[b"INCR", b"n"]), RespValue::Integer(1));
    assert_eq!(run(&mut db, &[b"GET", b"n"]), bulk(b"1"));
    assert_eq!(run(&mut db, &[b"INCR", b"n"]), RespValue::Integer(2));
    assert_eq!(run(&mut db, &[b"DECR", b"m"]), RespValue::Integer(-1));
    assert_eq!(run(&mut db, &[b"GET", b"m"]), bulk(b"-1"));
    assert_eq!(run(&mut db, &[b"DECR", b"m"]), RespValue::Integer(-2));

    run(&mut db, &[b"SET", b"t", b"abc"]);
    assert_eq!(run(&mut db, &[b"INCR", b"t"]), not_int());
    run(&mut db, &[b"SET", b"big", b"9223372036854775807"]);
    assert_eq!(run(&mut db, &[b"INCR", b"big"]), not_int());
    run(&mut db, &[b"LPUSH", b"l", b"x"]);
    assert_eq!(run(&mut db, &[b"INCR", b"l"]), not_int());
}

#[test]
fn list_push_pop_both_ends() {
    let mut db = Database::new();
    assert_eq!(run(&mut db, &[b"LPUSH", b"k", b"a", b"b"]), RespValue::Integer(2));
    assert_eq!(run(&mut db, &[b"LPOP", b"k"]), bulk(b"b"));
    assert_eq!(run(&mut db, &[b"LPOP", b"k"]), bulk(b"a"));
    assert_eq!(run(&mut db, &[b"LPOP", b"k"]), RespValue::Null);

    assert_eq!(run(&mut db, &[b"RPUSH", b"r", b"a", b"b"]), RespValue::Integer(2));
    assert_eq!(run(&mut db, &[b"RPOP", b"r"]), bulk(b"b"));
    assert_eq!(run(&mut db, &[b"LLEN", b"r"]), RespValue::Integer(1));
    assert_eq!(run(&mut db, &[b"LPOP", b"missing"]), RespValue::Null);
    assert_eq!(run(&mut db, &[b"LLEN", b"missing"]), RespValue::Integer(0));
}

#[test]
fn list_lrange_full_and_lindex_negative() {
    let mut db = Database::new();
    run(&mut db, &[b"RPUSH", b"k", b"a", b"b", b"c"]);
    assert_eq!(
        run(&mut db, &[b"LRANGE", b"k", b"0", b"-1"]),
        RespValue::Array(vec![bulk(b"a"), bulk(b"b"), bulk(b"c")])
    );
    assert_eq!(
        run(&mut db, &[b"LRANGE", b"k", b"1", b"2"]),
        RespValue::Array(vec![bulk(b"b"), bulk(b"c")])
    );
    assert_eq!(run(&mut db, &[b"LRANGE", b"k", b"2", b"1"]), not_int());
    assert_eq!(run(&mut db, &[b"LINDEX", b"k", b"-1"]), bulk(b"c"));
    assert_eq!(run(&mut db, &[b"LINDEX", b"k", b"-3"]), bulk(b"a"));
    assert_eq!(run(&mut db, &[b"LINDEX", b"k", b"3"]), not_int());
    assert_eq!(run(&mut db, &[b"LINDEX", b"k", b"x"]), not_int());
    assert_eq!(run(&mut db, &[b"LINDEX", b"k", b"+1"]), bulk(b"b"));
    assert_eq!(run(&mut db, &[b"LINDEX", b"missing", b"0"]), RespValue::Null);
}

#[test]
fn list_lset_and_ltrim() {
    let mut db = Database::new();
    run(&mut db, &[b"RPUSH", b"k", b"a", b"b", b"c", b"d"]);
    assert_eq!(run(&mut db, &[b"LSET", b"k", b"1", b"B"]), ok());
    assert_eq!(run(&mut db, &[b"LINDEX", b"k", b"1"]), bulk(b"B"));
    assert_eq!(run(&mut db, &[b"LSET", b"k", b"9", b"x"]), not_int());
    assert_eq!(
        run(&mut db, &[b"LSET", b"missing", b"0", b"x"]),
        RespValue::Error(b"ERR no such key".to_vec())
    );
    assert_eq!(run(&mut db, &[b"LTRIM", b"k", b"1", b"2"]), ok());
    assert_eq!(
        run(&mut db, &[b"LRANGE", b"k", b"0", b"-1"]),
        RespValue::Array(vec![bulk(b"B"), bulk(b"c")])
    );
    // bounds are clamped to the list
    assert_eq!(run(&mut db, &[b"LTRIM", b"k", b"0", b"99"]), ok());
    assert_eq!(run(&mut db, &[b"LLEN", b"k"]), RespValue::Integer(2));
    assert_eq!(run(&mut db, &[b"LTRIM", b"missing", b"0", b"1"]), ok());
}

#[test]
fn list_lrem_by_sign() {
    let mut db = Database::new();
    run(&mut db, &[b"RPUSH", b"k", b"x", b"a", b"x", b"b", b"x"]);
    assert_eq!(run(&mut db, &[b"LREM", b"k", b"1", b"x"]), RespValue::Integer(1));
    assert_eq!(
        run(&mut db, &[b"LRANGE", b"k", b"0", b"-1"]),
        RespValue::Array(vec![bulk(b"a"), bulk(b"x"), bulk(b"b"), bulk(b"x")])
    );
    assert_eq!(run(&mut db, &[b"LREM", b"k", b"-1", b"x"]), RespValue::Integer(1));
    assert_eq!(
        run(&mut db, &[b"LRANGE", b"k", b"0", b"-1"]),
        RespValue::Array(vec![bulk(b"a"), bulk(b"x"), bulk(b"b")])
    );
    assert_eq!(run(&mut db, &[b"LREM", b"k", b"0", b"x"]), RespValue::Integer(1));
    assert_eq!(
        run(&mut db, &[b"LRANGE", b"k", b"0", b"-1"]),
        RespValue::Array(vec![bulk(b"a"), bulk(b"b")])
    );
    assert_eq!(run(&mut db, &[b"LREM", b"missing", b"0", b"x"]), RespValue::Integer(0));
    assert_eq!(run(&mut db, &[b"LREM", b"k", b"no", b"x"]), not_int());
}

#[test]
fn list_mutation_preserves_ttl() {
    let mut db = Database::new();
    db.set_with_expiretime(
        b"k".to_vec(),
        Value::List(vec![b"a".to_vec()]),
        Some(5_000),
    );
    run(&mut db, &[b"RPUSH", b"k", b"b"]);
    assert_eq!(
        db.get_at(b"k", 5_000),
        Some(&Value::List(vec![b"a".to_vec(), b"b".to_vec()]))
    );
    assert_eq!(db.get_at(b"k", 5_001), None);
}

#[test]
fn hash_hset_hget_and_replacement() {
    let mut db = Database::new();
    assert_eq!(
        run(&mut db, &[b"HSET", b"h", b"f1", b"v1", b"f2", b"v2"]),
        RespValue::Integer(2)
    );
    assert_eq!(run(&mut db, &[b"HGET", b"h", b"f1"]), bulk(b"v1"));
    assert_eq!(run(&mut db, &[b"HGET", b"h", b"f2"]), bulk(b"v2"));
    assert_eq!(run(&mut db, &[b"HGET", b"h", b"f3"]), RespValue::Null);
    assert_eq!(
        run(&mut db, &[b"HGETALL", b"h"]),
        RespValue::Array(vec![bulk(b"f1"), bulk(b"v1"), bulk(b"f2"), bulk(b"v2")])
    );

    // a repeated HSET replaces the hash entirely
    assert_eq!(
        run(&mut db, &[b"HSET", b"h", b"g", b"w"]),
        RespValue::Integer(1)
    );
    assert_eq!(run(&mut db, &[b"HGET", b"h", b"f1"]), RespValue::Null);
    assert_eq!(
        run(&mut db, &[b"HGETALL", b"h"]),
        RespValue::Array(vec![bulk(b"g"), bulk(b"w")])
    );

    // a duplicated field keeps the later value, counting both pairs
    assert_eq!(
        run(&mut db, &[b"HSET", b"d", b"f", b"1", b"f", b"2"]),
        RespValue::Integer(2)
    );
    assert_eq!(run(&mut db, &[b"HGET", b"d", b"f"]), bulk(b"2"));
    assert_eq!(run(&mut db, &[b"HLEN", b"d"]), RespValue::Integer(1));

    assert_eq!(run(&mut db, &[b"HSET", b"h", b"f"]), arity());
    run(&mut db, &[b"SET", b"s", b"x"]);
    assert_eq!(run(&mut db, &[b"HSET", b"s", b"f", b"v"]), wrongtype());
    assert_eq!(run(&mut db, &[b"HGET", b"s", b"f"]), wrongtype());
}

#[test]
fn hash_hdel_hexists_hkeys_hvals() {
    let mut db = Database::new();
    run(&mut db, &[b"HSET", b"h", b"a", b"1", b"b", b"2", b"c", b"3"]);
    assert_eq!(run(&mut db, &[b"HEXISTS", b"h", b"a"]), RespValue::Integer(1));
    assert_eq!(run(&mut db, &[b"HEXISTS", b"h", b"z"]), RespValue::Integer(0));
    assert_eq!(run(&mut db, &[b"HLEN", b"h"]), RespValue::Integer(3));
    assert_eq!(
        run(&mut db, &[b"HKEYS", b"h"]),
        RespValue::Array(vec![bulk(b"a"), bulk(b"b"), bulk(b"c")])
    );
    assert_eq!(
        run(&mut db, &[b"HVALS", b"h"]),
        RespValue::Array(vec![bulk(b"1"), bulk(b"2"), bulk(b"3")])
    );
    assert_eq!(
        run(&mut db, &[b"HDEL", b"h", b"a", b"z", b"c"]),
        RespValue::Integer(2)
    );
    assert_eq!(run(&mut db, &[b"HLEN", b"h"]), RespValue::Integer(1));
    assert_eq!(run(&mut db, &[b"HDEL", b"missing", b"f"]), RespValue::Integer(0));
    assert_eq!(run(&mut db, &[b"HGETALL", b"missing"]), RespValue::Array(vec![]));
    assert_eq!(run(&mut db, &[b"HKEYS", b"missing"]), RespValue::Array(vec![]));
}

#[test]
fn set_sadd_scard_smembers() {
    let mut db = Database::new();
    assert_eq!(
        run(&mut db, &[b"SADD", b"s", b"a", b"b", b"c"]),
        RespValue::Integer(3)
    );
    assert_eq!(run(&mut db, &[b"SCARD", b"s"]), RespValue::Integer(3));
    assert_eq!(
        run(&mut db, &[b"SADD", b"s", b"b", b"d"]),
        RespValue::Integer(1)
    );
    assert_eq!(run(&mut db, &[b"SCARD", b"s"]), RespValue::Integer(4));
    assert_eq!(
        run(&mut db, &[b"SMEMBERS", b"s"]),
        RespValue::Array(vec![bulk(b"a"), bulk(b"b"), bulk(b"c"), bulk(b"d")])
    );
    assert_eq!(run(&mut db, &[b"SCARD", b"missing"]), RespValue::Integer(0));

    // SADD against a plain string is the type error
    run(&mut db, &[b"SET", b"str", b"x"]);
    assert_eq!(run(&mut db, &[b"SADD", b"str", b"a"]), wrongtype());
}

#[test]
fn set_srem_sismember() {
    let mut db = Database::new();
    run(&mut db, &[b"SADD", b"s", b"a", b"b", b"c"]);
    assert_eq!(run(&mut db, &[b"SISMEMBER", b"s", b"a"]), RespValue::Integer(1));
    assert_eq!(run(&mut db, &[b"SISMEMBER", b"s", b"z"]), RespValue::Integer(0));
    assert_eq!(
        run(&mut db, &[b"SREM", b"s", b"a", b"z", b"c"]),
        RespValue::Integer(2)
    );
    assert_eq!(run(&mut db, &[b"SCARD", b"s"]), RespValue::Integer(1));
    assert_eq!(run(&mut db, &[b"SREM", b"missing", b"x"]), RespValue::Integer(0));
}

#[test]
fn set_algebra_inter_union_diff() {
    let mut db = Database::new();
    run(&mut db, &[b"SADD", b"s1", b"a", b"b", b"c"]);
    run(&mut db, &[b"SADD", b"s2", b"b", b"c", b"d"]);
    assert_eq!(
        run(&mut db, &[b"SINTER", b"s1", b"s2"]),
        RespValue::Array(vec![bulk(b"b"), bulk(b"c")])
    );
    // commutative as a set (member order follows the first key)
    assert_eq!(
        run(&mut db, &[b"SINTER", b"s2", b"s1"]),
        RespValue::Array(vec![bulk(b"b"), bulk(b"c")])
    );
    assert_eq!(
        run(&mut db, &[b"SINTER", b"s1", b"missing"]),
        RespValue::Array(vec![])
    );
    assert_eq!(
        run(&mut db, &[b"SUNION", b"s1", b"s2"]),
        RespValue::Array(vec![bulk(b"a"), bulk(b"b"), bulk(b"c"), bulk(b"d")])
    );
    assert_eq!(
        run(&mut db, &[b"SDIFF", b"s1", b"s2"]),
        RespValue::Array(vec![bulk(b"a")])
    );
    run(&mut db, &[b"SET", b"str", b"x"]);
    assert_eq!(run(&mut db, &[b"SINTER", b"s1", b"str"]), wrongtype());
    assert_eq!(run(&mut db, &[b"SDIFF", b"s1"]), arity());
}

#[test]
fn set_algebra_store_variants() {
    let mut db = Database::new();
    run(&mut db, &[b"SADD", b"s1", b"a", b"b", b"c"]);
    run(&mut db, &[b"SADD", b"s2", b"b", b"c", b"d"]);
    assert_eq!(
        run(&mut db, &[b"SINTERSTORE", b"dst", b"s1", b"s2"]),
        RespValue::Integer(2)
    );
    assert_eq!(
        run(&mut db, &[b"SMEMBERS", b"dst"]),
        RespValue::Array(vec![bulk(b"b"), bulk(b"c")])
    );
    assert_eq!(
        run(&mut db, &[b"SUNIONSTORE", b"dst", b"s1", b"s2"]),
        RespValue::Integer(4)
    );
    assert_eq!(
        run(&mut db, &[b"SDIFFSTORE", b"dst", b"s1", b"s2"]),
        RespValue::Integer(1)
    );
    assert_eq!(run(&mut db, &[b"SMEMBERS", b"dst"]), RespValue::Array(vec![bulk(b"a")]));
    // a missing source empties an intersection
    assert_eq!(
        run(&mut db, &[b"SINTERSTORE", b"dst", b"s1", b"missing"]),
        RespValue::Integer(0)
    );
    assert_eq!(run(&mut db, &[b"SMEMBERS", b"dst"]), RespValue::Array(vec![]));
}
