//! String-family handlers: `SET`, `GET`, `DEL`, `EXISTS`, `INCR`, `DECR`.

use vstd::prelude::*;

use crate::bytestr::{
    bytes_eq, dec_int, parse_i64, parse_u64, push_dec_i64, spec_parse_i64, spec_parse_u64,
    to_upper, upper_bytes,
};
use crate::command::{
    count_reply, err_arg_num, err_arg_num_v, err_expire, err_expire_v, err_not_int, err_not_int_v,
    err_syntax, err_syntax_v, err_type, err_type_v, int_reply, int_sat, ok_reply, ok_v, Command,
    views_of,
};
use crate::protocol::{resp_view, RespV, RespValue};
use crate::storage::{sat_add, spec_get, Database, StoreV, Value, ValueV};
use vstd::slice::slice_to_vec;
use vstd::string::StrSliceExecFns;
use vstd::string::StringSliceAdditionalSpecFns;

verus! {

/// `SET key value` stores a plain string and clears any expiry;
/// `SET key value EX s` / `PX ms` converts the duration to an absolute
/// instant against `now`. A malformed duration is the expire error, an
/// unknown option the syntax error.
pub open spec fn set_spec(m: StoreV, args: Seq<Seq<u8>>, now: u128) -> (RespV, StoreV) {
    if args.len() == 2 {
        (ok_v(), m.insert(args[0], (ValueV::Str(args[1]), None)))
    } else if args.len() == 4 {
        let opt = upper_bytes(args[2]);
        if opt == "EX".spec_bytes() {
            match spec_parse_u64(args[3]) {
                Some(secs) => (
                    ok_v(),
                    m.insert(
                        args[0],
                        (ValueV::Str(args[1]), Some(sat_add(now, (secs as u128 * 1000) as u128))),
                    ),
                ),
                None => (err_expire_v(), m),
            }
        } else if opt == "PX".spec_bytes() {
            match spec_parse_u64(args[3]) {
                Some(ms) => (
                    ok_v(),
                    m.insert(args[0], (ValueV::Str(args[1]), Some(sat_add(now, ms as u128)))),
                ),
                None => (err_expire_v(), m),
            }
        } else {
            (err_syntax_v(), m)
        }
    } else {
        (err_arg_num_v(), m)
    }
}

/// `GET key`: the stored text, `Null` when absent or expired, the type
/// error when the key holds another variant.
pub open spec fn get_spec(m: StoreV, args: Seq<Seq<u8>>, now: u128) -> RespV {
    if args.len() == 1 {
        match spec_get(m, args[0], now) {
            Some(v) => match v {
                ValueV::Str(s) => RespV::BulkString(Some(s)),
                _ => err_type_v(),
            },
            None => RespV::Null,
        }
    } else {
        err_arg_num_v()
    }
}

/// Removing the keys left to right: how many were physically present,
/// and the store without them.
pub open spec fn del_all(m: StoreV, keys: Seq<Seq<u8>>) -> (int, StoreV)
    decreases keys.len(),
{
    if keys.len() == 0 {
        (0, m)
    } else {
        let hit: int = if m.dom().contains(keys[0]) {
            1
        } else {
            0
        };
        let rec = del_all(m.remove(keys[0]), keys.drop_first());
        (hit + rec.0, rec.1)
    }
}

/// `DEL`: no key is the arity error; one key is removed unconditionally
/// and acknowledged; several keys reply with the count of keys that were
/// physically present.
pub open spec fn del_spec(m: StoreV, args: Seq<Seq<u8>>) -> (RespV, StoreV) {
    if args.len() == 0 {
        (err_arg_num_v(), m)
    } else if args.len() == 1 {
        (ok_v(), m.remove(args[0]))
    } else {
        let rec = del_all(m, args);
        (RespV::Integer(int_sat(rec.0)), rec.1)
    }
}

/// How many of the keys are live at `now` (duplicates count again).
pub open spec fn count_live(m: StoreV, keys: Seq<Seq<u8>>, now: u128) -> int
    decreases keys.len(),
{
    if keys.len() == 0 {
        0
    } else {
        (if spec_get(m, keys[0], now) is Some {
            1int
        } else {
            0int
        }) + count_live(m, keys.drop_first(), now)
    }
}

/// `EXISTS key...`: the count of keys logically present.
pub open spec fn exists_spec(m: StoreV, args: Seq<Seq<u8>>, now: u128) -> RespV {
    if args.len() >= 1 {
        RespV::Integer(int_sat(count_live(m, args, now)))
    } else {
        err_arg_num_v()
    }
}

/// The common scheme of `INCR` and `DECR` with step `+1` or `-1`: an
/// absent key behaves as `"0"`; stored text that does not read as a
/// signed number, a non-string value, and a result beyond the integer
/// range are the value-domain error; on success the new number's decimal
/// text replaces the value (clearing any expiry) and is returned.
pub open spec fn step_spec(m: StoreV, args: Seq<Seq<u8>>, now: u128, up: bool) -> (RespV, StoreV) {
    if args.len() == 1 {
        let k = args[0];
        match spec_get(m, k, now) {
            Some(v) => match v {
                ValueV::Str(s) => match spec_parse_i64(s) {
                    Some(n) => {
                        if up && n < i64::MAX {
                            (
                                RespV::Integer(n + 1),
                                m.insert(k, (ValueV::Str(dec_int(n + 1)), None)),
                            )
                        } else if !up && n > i64::MIN {
                            (
                                RespV::Integer(n - 1),
                                m.insert(k, (ValueV::Str(dec_int(n - 1)), None)),
                            )
                        } else {
                            (err_not_int_v(), m)
                        }
                    },
                    None => (err_not_int_v(), m),
                },
                _ => (err_not_int_v(), m),
            },
            None => {
                let first: int = if up {
                    1
                } else {
                    -1
                };
                (RespV::Integer(first), m.insert(k, (ValueV::Str(dec_int(first)), None)))
            },
        }
    } else {
        (err_arg_num_v(), m)
    }
}

pub struct HandleString;

impl HandleString {
    pub fn handle_set(db: &mut Database, command: &Command, now: u128) -> (r: RespValue)
        requires
            old(db).wf(),
        ensures
            final(db).wf(),
            (resp_view(r), final(db)@) == set_spec(old(db)@, command.args_view(), now),
    {
        let args = &command.args;
        if args.len() == 2 {
            let key = slice_to_vec(args[0].as_slice());
            let val = Value::Str(slice_to_vec(args[1].as_slice()));
            db.set(key, val);
            ok_reply()
        } else if args.len() == 4 {
            let opt = to_upper(args[2].as_slice());
            if bytes_eq(opt.as_slice(), "EX".as_bytes()) {
                match parse_u64(args[3].as_slice()) {
                    Some(secs) => {
                        let ms: u128 = (secs as u128) * 1000;
                        let key = slice_to_vec(args[0].as_slice());
                        let val = Value::Str(slice_to_vec(args[1].as_slice()));
                        db.set_with_duration_at(key, val, Some(ms), now);
                        ok_reply()
                    },
                    None => err_expire(),
                }
            } else if bytes_eq(opt.as_slice(), "PX".as_bytes()) {
                match parse_u64(args[3].as_slice()) {
                    Some(ms) => {
                        let key = slice_to_vec(args[0].as_slice());
                        let val = Value::Str(slice_to_vec(args[1].as_slice()));
                        db.set_with_duration_at(key, val, Some(ms as u128), now);
                        ok_reply()
                    },
                    None => err_expire(),
                }
            } else {
                err_syntax()
            }
        } else {
            err_arg_num()
        }
    }

    pub fn handle_get(db: &Database, command: &Command, now: u128) -> (r: RespValue)
        requires
            db.wf(),
        ensures
            resp_view(r) == get_spec(db@, command.args_view(), now),
    {
        let args = &command.args;
        if args.len() == 1 {
            match db.get_at(args[0].as_slice(), now) {
                Some(v) => match v {
                    Value::Str(s) => RespValue::BulkString(Some(slice_to_vec(s.as_slice()))),
                    _ => err_type(),
                },
                None => RespValue::Null,
            }
        } else {
            err_arg_num()
        }
    }

    #[verifier::loop_isolation(false)]
    pub fn handle_del(db: &mut Database, command: &Command) -> (r: RespValue)
        requires
            old(db).wf(),
        ensures
            final(db).wf(),
            (resp_view(r), final(db)@) == del_spec(old(db)@, command.args_view()),
    {
        let args = &command.args;
        if args.len() == 0 {
            err_arg_num()
        } else if args.len() == 1 {
            db.del(args[0].as_slice());
            ok_reply()
        } else {
            let ghost m0 = db@;
            let ghost keys = command.args_view();
            let mut num: usize = 0;
            let n = args.len();
            let mut i: usize = 0;
            proof {
                assert(keys.skip(0) =~= keys);
            }
            while i < n
                invariant
                    0 <= i <= n,
                    num <= i,
                    db.wf(),
                    del_all(m0, keys).0 == num + del_all(db@, keys.skip(i as int)).0,
                    del_all(m0, keys).1 == del_all(db@, keys.skip(i as int)).1,
                decreases n - i,
            {
                let ghost pre = db@;
                let hit = db.del(args[i].as_slice()).is_some();
                proof {
                    assert(keys.skip(i as int)[0] == keys[i as int]);
                    assert(keys.skip(i as int).drop_first() =~= keys.skip(i + 1));
                }
                if hit {
                    num = num + 1;
                }
                i = i + 1;
            }
            proof {
                assert(keys.skip(n as int) =~= Seq::<Seq<u8>>::empty());
                assert(del_all(m0, keys).0 == num);
                assert(del_all(m0, keys).1 == db@);
            }
            count_reply(num)
        }
    }

    #[verifier::loop_isolation(false)]
    pub fn handle_exists(db: &Database, command: &Command, now: u128) -> (r: RespValue)
        requires
            db.wf(),
        ensures
            resp_view(r) == exists_spec(db@, command.args_view(), now),
    {
        let args = &command.args;
        if args.len() >= 1 {
            let ghost keys = command.args_view();
            let mut num: usize = 0;
            let n = args.len();
            let mut i: usize = 0;
            proof {
                assert(keys.skip(0) =~= keys);
            }
            while i < n
                invariant
                    0 <= i <= n,
                    num <= i,
                    count_live(db@, keys, now) == num + count_live(db@, keys.skip(i as int), now),
                decreases n - i,
            {
                let hit = db.exists_at(args[i].as_slice(), now);
                proof {
                    assert(keys.skip(i as int)[0] == keys[i as int]);
                    assert(keys.skip(i as int).drop_first() =~= keys.skip(i + 1));
                }
                if hit {
                    num = num + 1;
                }
                i = i + 1;
            }
            proof {
                assert(keys.skip(n as int) =~= Seq::<Seq<u8>>::empty());
            }
            count_reply(num)
        } else {
            err_arg_num()
        }
    }

    /// The stored text under `k` if it holds a string: absent, wrong
    /// variant, and present text are told apart.
    fn read_string(db: &Database, key: &[u8], now: u128) -> (r: Option<Option<Vec<u8>>>)
        requires
            db.wf(),
        ensures
            match r {
                None => spec_get(db@, key@, now) is None,
                Some(o) => match o {
                    Some(s) => spec_get(db@, key@, now) == Some(ValueV::Str(s@)),
                    None => spec_get(db@, key@, now) is Some && !(spec_get(db@, key@, now).unwrap()
                        is Str),
                },
            },
    {
        match db.get_at(key, now) {
            Some(v) => match v {
                Value::Str(s) => Some(Some(slice_to_vec(s.as_slice()))),
                _ => Some(None),
            },
            None => None,
        }
    }

    fn handle_step(db: &mut Database, command: &Command, now: u128, up: bool) -> (r: RespValue)
        requires
            old(db).wf(),
        ensures
            final(db).wf(),
            (resp_view(r), final(db)@) == step_spec(old(db)@, command.args_view(), now, up),
    {
        let args = &command.args;
        if args.len() != 1 {
            return err_arg_num();
        }
        match Self::read_string(db, args[0].as_slice(), now) {
            Some(inner) => match inner {
                Some(s) => match parse_i64(s.as_slice()) {
                    Some(n) => {
                        if up && n < i64::MAX {
                            let mut text: Vec<u8> = Vec::new();
                            push_dec_i64(n + 1, &mut text);
                            let key = slice_to_vec(args[0].as_slice());
                            db.set(key, Value::Str(text));
                            int_reply(n + 1)
                        } else if !up && n > i64::MIN {
                            let mut text: Vec<u8> = Vec::new();
                            push_dec_i64(n - 1, &mut text);
                            let key = slice_to_vec(args[0].as_slice());
                            db.set(key, Value::Str(text));
                            int_reply(n - 1)
                        } else {
                            err_not_int()
                        }
                    },
                    None => err_not_int(),
                },
                None => err_not_int(),
            },
            None => {
                let first: i64 = if up {
                    1
                } else {
                    -1
                };
                let mut text: Vec<u8> = Vec::new();
                push_dec_i64(first, &mut text);
                let key = slice_to_vec(args[0].as_slice());
                db.set(key, Value::Str(text));
                int_reply(first)
            },
        }
    }

    pub fn handle_incr(db: &mut Database, command: &Command, now: u128) -> (r: RespValue)
        requires
            old(db).wf(),
        ensures
            final(db).wf(),
            (resp_view(r), final(db)@) == step_spec(old(db)@, command.args_view(), now, true),
    {
        Self::handle_step(db, command, now, true)
    }

    pub fn handle_decr(db: &mut Database, command: &Command, now: u128) -> (r: RespValue)
        requires
            old(db).wf(),
        ensures
            final(db).wf(),
            (resp_view(r), final(db)@) == step_spec(old(db)@, command.args_view(), now, false),
    {
        Self::handle_step(db, command, now, false)
    }
}

} // verus!
