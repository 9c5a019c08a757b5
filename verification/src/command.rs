//! The command model: a request parsed into an upper-cased name and its
//! arguments, the shared reply constructors, and the dispatcher that maps
//! a command onto the storage engine.

use vstd::prelude::*;

use crate::bytestr::{bytes_eq, to_upper, upper_bytes};
use crate::storage::{Database, StoreV};
pub use crate::bytestr::views_of;
use crate::protocol::{resp_view, RespV, RespValue};
use vstd::string::StrSliceExecFns;
use vstd::string::StringSliceAdditionalSpecFns;

verus! {

/// `+OK`.
pub open spec fn ok_v() -> RespV {
    RespV::SimpleString("OK".spec_bytes())
}

/// Builds the `OK` reply.
pub fn ok_reply() -> (r: RespValue)
    ensures
        resp_view(r) == ok_v(),
{
    RespValue::SimpleString("OK".as_bytes_vec())
}

/// `+PONG`.
pub open spec fn pong_v() -> RespV {
    RespV::SimpleString("PONG".spec_bytes())
}

/// Builds the `PONG` reply.
pub fn pong_reply() -> (r: RespValue)
    ensures
        resp_view(r) == pong_v(),
{
    RespValue::SimpleString("PONG".as_bytes_vec())
}

/// The arity error: a handler was given the wrong number of arguments.
pub open spec fn err_arg_num_v() -> RespV {
    RespV::Error("ERR wrong number of arguments".spec_bytes())
}

/// Builds the arity-error reply.
pub fn err_arg_num() -> (r: RespValue)
    ensures
        resp_view(r) == err_arg_num_v(),
{
    RespValue::Error("ERR wrong number of arguments".as_bytes_vec())
}

/// The type error: the key holds a variant the command cannot work on.
pub open spec fn err_type_v() -> RespV {
    RespV::Error("WRONGTYPE Operation against a key holding the wrong kind of value".spec_bytes())
}

/// Builds the type-error reply.
pub fn err_type() -> (r: RespValue)
    ensures
        resp_view(r) == err_type_v(),
{
    RespValue::Error("WRONGTYPE Operation against a key holding the wrong kind of value".as_bytes_vec())
}

/// The value-domain error: a number was required and not found, or an
/// index lies out of range.
pub open spec fn err_not_int_v() -> RespV {
    RespV::Error("ERR value is not an integer or out of range".spec_bytes())
}

/// Builds the value-domain-error reply.
pub fn err_not_int() -> (r: RespValue)
    ensures
        resp_view(r) == err_not_int_v(),
{
    RespValue::Error("ERR value is not an integer or out of range".as_bytes_vec())
}

/// The expire-time error of `SET ... EX/PX`.
pub open spec fn err_expire_v() -> RespV {
    RespV::Error("ERR invalid expire time in 'set' command".spec_bytes())
}

/// Builds the expire-time-error reply.
pub fn err_expire() -> (r: RespValue)
    ensures
        resp_view(r) == err_expire_v(),
{
    RespValue::Error("ERR invalid expire time in 'set' command".as_bytes_vec())
}

/// The syntax error of an unrecognized option.
pub open spec fn err_syntax_v() -> RespV {
    RespV::Error("ERR syntax error".spec_bytes())
}

/// Builds the syntax-error reply.
pub fn err_syntax() -> (r: RespValue)
    ensures
        resp_view(r) == err_syntax_v(),
{
    RespValue::Error("ERR syntax error".as_bytes_vec())
}

/// The missing-key error of `LSET`.
pub open spec fn err_no_key_v() -> RespV {
    RespV::Error("ERR no such key".spec_bytes())
}

/// Builds the missing-key-error reply.
pub fn err_no_key() -> (r: RespValue)
    ensures
        resp_view(r) == err_no_key_v(),
{
    RespValue::Error("ERR no such key".as_bytes_vec())
}

/// The unknown-command error, quoting the name as received.
pub open spec fn err_unknown_v(name: Seq<u8>) -> RespV {
    RespV::Error("ERR unknown command '".spec_bytes() + name + "'".spec_bytes())
}

/// Builds the unknown-command reply.
pub fn err_unknown(name: &[u8]) -> (r: RespValue)
    ensures
        resp_view(r) == err_unknown_v(name@),
{
    let mut msg = "ERR unknown command '".as_bytes_vec();
    crate::bytestr::append_bytes(&mut msg, name);
    let tail = "'".as_bytes_vec();
    crate::bytestr::append_bytes(&mut msg, tail.as_slice());
    RespValue::Error(msg)
}

/// An integer reply.
pub fn int_reply(n: i64) -> (r: RespValue)
    ensures
        resp_view(r) == RespV::Integer(n as int),
{
    RespValue::Integer(n)
}

/// A count clamped to what an integer reply can carry.
pub open spec fn int_sat(c: int) -> int {
    if c > i64::MAX {
        i64::MAX as int
    } else {
        c
    }
}

/// An integer reply carrying a count.
pub fn count_reply(c: usize) -> (r: RespValue)
    ensures
        resp_view(r) == RespV::Integer(int_sat(c as int)),
{
    if (c as u128) > (i64::MAX as u128) {
        RespValue::Integer(i64::MAX)
    } else {
        RespValue::Integer(c as i64)
    }
}

/// An array reply whose items are the given byte strings, each a
/// present bulk string.
pub fn bulk_array(items: Vec<Vec<u8>>) -> (r: RespValue)
    ensures
        resp_view(r) == crate::protocol::frame_of(views_of(items@)),
{
    let mut out: Vec<RespValue> = Vec::new();
    let n = items.len();
    let mut i: usize = 0;
    while i < n
        invariant
            0 <= i <= n,
            n == items@.len(),
            out@.len() == i,
            forall|j: int|
                0 <= j < i ==> resp_view(#[trigger] out@[j]) == RespV::BulkString(
                    Some(items@[j]@),
                ),
        decreases n - i,
    {
        out.push(RespValue::BulkString(Some(vstd::slice::slice_to_vec(items[i].as_slice()))));
        i = i + 1;
    }
    let r = RespValue::Array(out);
    proof {
        crate::protocol::lemma_view_list(out@);
        let target = views_of(items@).map_values(|a: Seq<u8>| RespV::BulkString(Some(a)));
        assert forall|j: int| 0 <= j < out@.len() implies crate::protocol::resp_view_list(out@)[j]
            == target[j] by {
            assert(resp_view(out@[j]) == RespV::BulkString(Some(items@[j]@)));
            assert(views_of(items@)[j] == items@[j]@);
        }
        assert(crate::protocol::resp_view_list(out@) =~= target);
    }
    r
}

/// Why a frame could not become a command.
#[derive(Debug, Clone, Copy, PartialEq, Eq, Structural)]
pub enum ParseError {
    /// The frame was an empty array.
    EmptyCommand,
    /// The first element was not a present bulk string.
    InvalidName,
    /// The frame was not an array.
    InvalidFormat,
}

/// The argument a frame element contributes: the text of a present bulk
/// string, and the empty text for anything else.
pub open spec fn arg_of(v: RespV) -> Seq<u8> {
    match v {
        RespV::BulkString(o) => match o {
            Some(s) => s,
            None => Seq::empty(),
        },
        _ => Seq::empty(),
    }
}

/// What parsing a frame yields: the upper-cased name and the arguments,
/// or the reason the frame is no command.
pub open spec fn parse_spec(v: RespV) -> Result<(Seq<u8>, Seq<Seq<u8>>), ParseError> {
    match v {
        RespV::Array(items) => {
            if items.len() == 0 {
                Err(ParseError::EmptyCommand)
            } else {
                match items[0] {
                    RespV::BulkString(o) => match o {
                        Some(s) => Ok(
                            (
                                upper_bytes(s),
                                items.drop_first().map_values(|x: RespV| arg_of(x)),
                            ),
                        ),
                        None => Err(ParseError::InvalidName),
                    },
                    _ => Err(ParseError::InvalidName),
                }
            }
        },
        _ => Err(ParseError::InvalidFormat),
    }
}

/// One request: the upper-cased command name and its arguments in order.
#[derive(Debug, PartialEq, Eq)]
pub struct Command {
    pub name: Vec<u8>,
    pub args: Vec<Vec<u8>>,
}

impl Command {
    /// The arguments as byte strings.
    pub open spec fn args_view(&self) -> Seq<Seq<u8>> {
        views_of(self.args@)
    }

    /// Turns a decoded frame into a command: the frame must be a
    /// non-empty array whose first element is a present bulk string; that
    /// element, upper-cased, names the command, and every further element
    /// becomes an argument (an absent or non-bulk element the empty one).
    #[verifier::loop_isolation(false)]
    pub fn parse(resp_value: RespValue) -> (r: Result<Self, ParseError>)
        ensures
            match r {
                Ok(c) => parse_spec(resp_view(resp_value)) == Ok::<_, ParseError>(
                    (c.name@, c.args_view()),
                ),
                Err(e) => parse_spec(resp_view(resp_value)) == Err::<
                    (Seq<u8>, Seq<Seq<u8>>),
                    ParseError,
                >(e),
            },
    {
        let ghost v = resp_view(resp_value);
        match resp_value {
            RespValue::Array(items) => {
                proof {
                    crate::protocol::lemma_view_list(items@);
                }
                let ghost vitems = crate::protocol::resp_view_list(items@);
                if items.len() == 0 {
                    return Err(ParseError::EmptyCommand);
                }
                let name = match &items[0] {
                    RespValue::BulkString(o) => match o {
                        Some(s) => to_upper(s.as_slice()),
                        None => {
                            return Err(ParseError::InvalidName);
                        },
                    },
                    _ => {
                        return Err(ParseError::InvalidName);
                    },
                };
                let mut args: Vec<Vec<u8>> = Vec::new();
                let n = items.len();
                let mut i: usize = 1;
                while i < n
                    invariant
                        1 <= i <= n,
                        args@.len() == i - 1,
                        forall|j: int|
                            0 <= j < i - 1 ==> (#[trigger] args@[j])@ == arg_of(vitems[j + 1]),
                    decreases n - i,
                {
                    let a = match &items[i] {
                        RespValue::BulkString(o) => match o {
                            Some(s) => s.clone(),
                            None => Vec::new(),
                        },
                        _ => Vec::new(),
                    };
                    args.push(a);
                    i = i + 1;
                }
                let c = Command { name, args };
                proof {
                    let target = vitems.drop_first().map_values(|x: RespV| arg_of(x));
                    assert forall|j: int| 0 <= j < c.args_view().len() implies c.args_view()[j]
                        == target[j] by {
                        assert(c.args_view()[j] == args@[j]@);
                        assert(vitems.drop_first()[j] == vitems[j + 1]);
                    }
                    assert(c.args_view() =~= target);
                }
                Ok(c)
            },
            _ => {
                proof {
                    assert(v is Array == false);
                }
                Err(ParseError::InvalidFormat)
            },
        }
    }
}

/// One command mapped onto the store at instant `now`: the reply and
/// the store afterwards. Names route by exact match on the upper-cased
/// name; an unmatched name answers the unknown-command error and leaves
/// the store untouched.
pub open spec fn handle_spec(m: StoreV, name: Seq<u8>, args: Seq<Seq<u8>>, now: u128) -> (
    RespV,
    StoreV,
) {
    if name == "PING".spec_bytes() {
        (crate::handle_sys::ping_spec(args), m)
    } else if name == "ECHO".spec_bytes() {
        (crate::handle_sys::echo_spec(args), m)
    } else if name == "CLEAN".spec_bytes() {
        crate::handle_sys::clean_spec(m, args, now)
    } else if name == "SET".spec_bytes() {
        crate::handle_string::set_spec(m, args, now)
    } else if name == "GET".spec_bytes() {
        (crate::handle_string::get_spec(m, args, now), m)
    } else if name == "DEL".spec_bytes() {
        crate::handle_string::del_spec(m, args)
    } else if name == "EXISTS".spec_bytes() {
        (crate::handle_string::exists_spec(m, args, now), m)
    } else if name == "INCR".spec_bytes() {
        crate::handle_string::step_spec(m, args, now, true)
    } else if name == "DECR".spec_bytes() {
        crate::handle_string::step_spec(m, args, now, false)
    } else if name == "HSET".spec_bytes() {
        crate::handle_hash::hset_spec(m, args, now)
    } else if name == "HGET".spec_bytes() {
        (crate::handle_hash::hget_spec(m, args, now), m)
    } else if name == "HGETALL".spec_bytes() {
        (crate::handle_hash::hgetall_spec(m, args, now), m)
    } else if name == "HDEL".spec_bytes() {
        crate::handle_hash::hdel_spec(m, args, now)
    } else if name == "HEXISTS".spec_bytes() {
        (crate::handle_hash::hexists_spec(m, args, now), m)
    } else if name == "HLEN".spec_bytes() {
        (crate::handle_hash::hlen_spec(m, args, now), m)
    } else if name == "HKEYS".spec_bytes() {
        (crate::handle_hash::hkeys_spec(m, args, now), m)
    } else if name == "HVALS".spec_bytes() {
        (crate::handle_hash::hvals_spec(m, args, now), m)
    } else if name == "LPUSH".spec_bytes() {
        crate::handle_list::lpush_spec(m, args, now)
    } else if name == "RPUSH".spec_bytes() {
        crate::handle_list::rpush_spec(m, args, now)
    } else if name == "LPOP".spec_bytes() {
        crate::handle_list::lpop_spec(m, args, now)
    } else if name == "RPOP".spec_bytes() {
        crate::handle_list::rpop_spec(m, args, now)
    } else if name == "LLEN".spec_bytes() {
        (crate::handle_list::llen_spec(m, args, now), m)
    } else if name == "LINDEX".spec_bytes() {
        (crate::handle_list::lindex_spec(m, args, now), m)
    } else if name == "LSET".spec_bytes() {
        crate::handle_list::lset_spec(m, args, now)
    } else if name == "LRANGE".spec_bytes() {
        (crate::handle_list::lrange_spec(m, args, now), m)
    } else if name == "LREM".spec_bytes() {
        crate::handle_list::lrem_spec(m, args, now)
    } else if name == "LTRIM".spec_bytes() {
        crate::handle_list::ltrim_spec(m, args, now)
    } else if name == "SADD".spec_bytes() {
        crate::handle_set::sadd_spec(m, args, now)
    } else if name == "SCARD".spec_bytes() {
        (crate::handle_set::scard_spec(m, args, now), m)
    } else if name == "SMEMBERS".spec_bytes() {
        (crate::handle_set::smembers_spec(m, args, now), m)
    } else if name == "SREM".spec_bytes() {
        crate::handle_set::srem_spec(m, args, now)
    } else if name == "SISMEMBER".spec_bytes() {
        (crate::handle_set::sismember_spec(m, args, now), m)
    } else if name == "SINTER".spec_bytes() {
        (crate::handle_set::sinter_spec(m, args, now), m)
    } else if name == "SINTERSTORE".spec_bytes() {
        crate::handle_set::sinterstore_spec(m, args, now)
    } else if name == "SUNION".spec_bytes() {
        (crate::handle_set::sunion_spec(m, args, now), m)
    } else if name == "SUNIONSTORE".spec_bytes() {
        crate::handle_set::sunionstore_spec(m, args, now)
    } else if name == "SDIFF".spec_bytes() {
        (crate::handle_set::sdiff_spec(m, args, now), m)
    } else if name == "SDIFFSTORE".spec_bytes() {
        crate::handle_set::sdiffstore_spec(m, args, now)
    } else {
        (err_unknown_v(name), m)
    }
}

impl Command {
    /// Dispatches one command against the store as observed at instant
    /// `now`.
    pub fn handle_at(db: &mut Database, command: &Command, now: u128) -> (r: RespValue)
        requires
            old(db).wf(),
        ensures
            final(db).wf(),
            (resp_view(r), final(db)@) == handle_spec(
                old(db)@,
                command.name@,
                command.args_view(),
                now,
            ),
    {
        let name = command.name.as_slice();
        if bytes_eq(name, "PING".as_bytes()) {
            crate::handle_sys::HandleSys::handle_ping(command)
        } else if bytes_eq(name, "ECHO".as_bytes()) {
            crate::handle_sys::HandleSys::handle_echo(command)
        } else if bytes_eq(name, "CLEAN".as_bytes()) {
            crate::handle_sys::HandleSys::handle_clean(db, command, now)
        } else if bytes_eq(name, "SET".as_bytes()) {
            crate::handle_string::HandleString::handle_set(db, command, now)
        } else if bytes_eq(name, "GET".as_bytes()) {
            crate::handle_string::HandleString::handle_get(db, command, now)
        } else if bytes_eq(name, "DEL".as_bytes()) {
            crate::handle_string::HandleString::handle_del(db, command)
        } else if bytes_eq(name, "EXISTS".as_bytes()) {
            crate::handle_string::HandleString::handle_exists(db, command, now)
        } else if bytes_eq(name, "INCR".as_bytes()) {
            crate::handle_string::HandleString::handle_incr(db, command, now)
        } else if bytes_eq(name, "DECR".as_bytes()) {
            crate::handle_string::HandleString::handle_decr(db, command, now)
        } else if bytes_eq(name, "HSET".as_bytes()) {
            crate::handle_hash::HandleHash::handle_hset(db, command, now)
        } else if bytes_eq(name, "HGET".as_bytes()) {
            crate::handle_hash::HandleHash::handle_hget(db, command, now)
        } else if bytes_eq(name, "HGETALL".as_bytes()) {
            crate::handle_hash::HandleHash::handle_hgetall(db, command, now)
        } else if bytes_eq(name, "HDEL".as_bytes()) {
            crate::handle_hash::HandleHash::handle_hdel(db, command, now)
        } else if bytes_eq(name, "HEXISTS".as_bytes()) {
            crate::handle_hash::HandleHash::handle_hexists(db, command, now)
        } else if bytes_eq(name, "HLEN".as_bytes()) {
            crate::handle_hash::HandleHash::handle_hlen(db, command, now)
        } else if bytes_eq(name, "HKEYS".as_bytes()) {
            crate::handle_hash::HandleHash::handle_hkeys(db, command, now)
        } else if bytes_eq(name, "HVALS".as_bytes()) {
            crate::handle_hash::HandleHash::handle_hvals(db, command, now)
        } else if bytes_eq(name, "LPUSH".as_bytes()) {
            crate::handle_list::HandleList::handle_lpush(db, command, now)
        } else if bytes_eq(name, "RPUSH".as_bytes()) {
            crate::handle_list::HandleList::handle_rpush(db, command, now)
        } else if bytes_eq(name, "LPOP".as_bytes()) {
            crate::handle_list::HandleList::handle_lpop(db, command, now)
        } else if bytes_eq(name, "RPOP".as_bytes()) {
            crate::handle_list::HandleList::handle_rpop(db, command, now)
        } else if bytes_eq(name, "LLEN".as_bytes()) {
            crate::handle_list::HandleList::handle_llen(db, command, now)
        } else if bytes_eq(name, "LINDEX".as_bytes()) {
            crate::handle_list::HandleList::handle_lindex(db, command, now)
        } else if bytes_eq(name, "LSET".as_bytes()) {
            crate::handle_list::HandleList::handle_lset(db, command, now)
        } else if bytes_eq(name, "LRANGE".as_bytes()) {
            crate::handle_list::HandleList::handle_lrange(db, command, now)
        } else if bytes_eq(name, "LREM".as_bytes()) {
            crate::handle_list::HandleList::handle_lrem(db, command, now)
        } else if bytes_eq(name, "LTRIM".as_bytes()) {
            crate::handle_list::HandleList::handle_ltrim(db, command, now)
        } else if bytes_eq(name, "SADD".as_bytes()) {
            crate::handle_set::HandleSet::handle_sadd(db, command, now)
        } else if bytes_eq(name, "SCARD".as_bytes()) {
            crate::handle_set::HandleSet::handle_scard(db, command, now)
        } else if bytes_eq(name, "SMEMBERS".as_bytes()) {
            crate::handle_set::HandleSet::handle_smembers(db, command, now)
        } else if bytes_eq(name, "SREM".as_bytes()) {
            crate::handle_set::HandleSet::handle_srem(db, command, now)
        } else if bytes_eq(name, "SISMEMBER".as_bytes()) {
            crate::handle_set::HandleSet::handle_sismember(db, command, now)
        } else if bytes_eq(name, "SINTER".as_bytes()) {
            crate::handle_set::HandleSet::handle_sinter(db, command, now)
        } else if bytes_eq(name, "SINTERSTORE".as_bytes()) {
            crate::handle_set::HandleSet::handle_sinterstore(db, command, now)
        } else if bytes_eq(name, "SUNION".as_bytes()) {
            crate::handle_set::HandleSet::handle_sunion(db, command, now)
        } else if bytes_eq(name, "SUNIONSTORE".as_bytes()) {
            crate::handle_set::HandleSet::handle_sunionstore(db, command, now)
        } else if bytes_eq(name, "SDIFF".as_bytes()) {
            crate::handle_set::HandleSet::handle_sdiff(db, command, now)
        } else if bytes_eq(name, "SDIFFSTORE".as_bytes()) {
            crate::handle_set::HandleSet::handle_sdiffstore(db, command, now)
        } else {
            err_unknown(name)
        }
    }

    /// Dispatches one command against the wall clock at call time: the
    /// reply and the new store are those of the command at some clock
    /// reading.
    pub fn handle(db: &mut Database, command: Command) -> (r: RespValue)
        requires
            old(db).wf(),
        ensures
            final(db).wf(),
            exists|now: u128|
                (resp_view(r), final(db)@) == handle_spec(
                    old(db)@,
                    command.name@,
                    command.args_view(),
                    now,
                ),
    {
        let now = crate::storage::now_millis();
        let r = Self::handle_at(db, &command, now);
        proof {
            assert((resp_view(r), db@) == handle_spec(
                old(db)@,
                command.name@,
                command.args_view(),
                now,
            ));
        }
        r
    }
}

} // verus!
