//! List-family handlers: `LPUSH`, `RPUSH`, `LPOP`, `RPOP`, `LLEN`,
//! `LINDEX`, `LSET`, `LRANGE`, `LREM`, `LTRIM`.
//!
//! Lists insert and remove at both ends; a negative index counts from
//! the end, `-1` naming the last element.

use vstd::prelude::*;

use crate::bytestr::{clone_byte_vecs, parse_i64, spec_parse_i64, views_of};
use crate::command::{
    bulk_array, count_reply, err_arg_num, err_arg_num_v, err_no_key, err_no_key_v, err_not_int,
    err_not_int_v, err_type, err_type_v, int_sat, ok_reply, ok_v, Command,
};
use crate::protocol::{frame_of, resp_view, RespV, RespValue};
use crate::storage::{spec_get, Database, StoreV, Value, ValueV};
use vstd::slice::slice_to_vec;

verus! {

type Items = Seq<Seq<u8>>;

/// The sequence reversed.
pub open spec fn rev_seq(s: Items) -> Items {
    Seq::new(s.len(), |i: int| s[s.len() - 1 - i])
}

/// A signed index resolved against a length: negative counts from the
/// end.
pub open spec fn adj_idx(idx: int, len: int) -> int {
    if idx < 0 {
        idx + len
    } else {
        idx
    }
}

/// `LPUSH key e...`: the elements go to the front one after the other,
/// so they end up reversed before the old contents; the reply is the new
/// length. A fresh key gets a new list without expiry; an existing one
/// keeps its expiry.
pub open spec fn lpush_spec(m: StoreV, args: Seq<Seq<u8>>, now: u128) -> (RespV, StoreV) {
    if args.len() > 1 {
        let k = args[0];
        let new = rev_seq(args.skip(1));
        match spec_get(m, k, now) {
            Some(v) => match v {
                ValueV::List(l) => (
                    RespV::Integer(int_sat((new.len() + l.len()) as int)),
                    m.insert(k, (ValueV::List(new + l), m[k].1)),
                ),
                _ => (err_type_v(), m),
            },
            None => (
                RespV::Integer(int_sat(new.len() as int)),
                m.insert(k, (ValueV::List(new), None)),
            ),
        }
    } else {
        (err_arg_num_v(), m)
    }
}

/// `RPUSH key e...`: the elements are appended in order; the reply is
/// the new length.
pub open spec fn rpush_spec(m: StoreV, args: Seq<Seq<u8>>, now: u128) -> (RespV, StoreV) {
    if args.len() > 1 {
        let k = args[0];
        let new = args.skip(1);
        match spec_get(m, k, now) {
            Some(v) => match v {
                ValueV::List(l) => (
                    RespV::Integer(int_sat((l.len() + new.len()) as int)),
                    m.insert(k, (ValueV::List(l + new), m[k].1)),
                ),
                _ => (err_type_v(), m),
            },
            None => (
                RespV::Integer(int_sat(new.len() as int)),
                m.insert(k, (ValueV::List(new), None)),
            ),
        }
    } else {
        (err_arg_num_v(), m)
    }
}

/// `LPOP key`: the first element leaves and is returned; an empty list
/// or an absent key is `Null`.
pub open spec fn lpop_spec(m: StoreV, args: Seq<Seq<u8>>, now: u128) -> (RespV, StoreV) {
    if args.len() == 1 {
        match spec_get(m, args[0], now) {
            Some(v) => match v {
                ValueV::List(l) => if l.len() == 0 {
                    (RespV::Null, m)
                } else {
                    (
                        RespV::BulkString(Some(l[0])),
                        m.insert(args[0], (ValueV::List(l.drop_first()), m[args[0]].1)),
                    )
                },
                _ => (err_type_v(), m),
            },
            None => (RespV::Null, m),
        }
    } else {
        (err_arg_num_v(), m)
    }
}

/// `RPOP key`: the last element leaves and is returned; an empty list
/// or an absent key is `Null`.
pub open spec fn rpop_spec(m: StoreV, args: Seq<Seq<u8>>, now: u128) -> (RespV, StoreV) {
    if args.len() == 1 {
        match spec_get(m, args[0], now) {
            Some(v) => match v {
                ValueV::List(l) => if l.len() == 0 {
                    (RespV::Null, m)
                } else {
                    (
                        RespV::BulkString(Some(l.last())),
                        m.insert(args[0], (ValueV::List(l.drop_last()), m[args[0]].1)),
                    )
                },
                _ => (err_type_v(), m),
            },
            None => (RespV::Null, m),
        }
    } else {
        (err_arg_num_v(), m)
    }
}

/// `LLEN key`: the length; an absent key counts zero.
pub open spec fn llen_spec(m: StoreV, args: Seq<Seq<u8>>, now: u128) -> RespV {
    if args.len() == 1 {
        match spec_get(m, args[0], now) {
            Some(v) => match v {
                ValueV::List(l) => RespV::Integer(int_sat(l.len() as int)),
                _ => err_type_v(),
            },
            None => RespV::Integer(0),
        }
    } else {
        err_arg_num_v()
    }
}

/// `LINDEX key idx`: the element at the resolved index; an index that
/// does not read as a number or falls out of range is the value-domain
/// error; an absent key is `Null`.
pub open spec fn lindex_spec(m: StoreV, args: Seq<Seq<u8>>, now: u128) -> RespV {
    if args.len() == 2 {
        match spec_get(m, args[0], now) {
            Some(v) => match v {
                ValueV::List(l) => match spec_parse_i64(args[1]) {
                    Some(idx) => {
                        let j = adj_idx(idx as int, l.len() as int);
                        if 0 <= j < l.len() {
                            RespV::BulkString(Some(l[j]))
                        } else {
                            err_not_int_v()
                        }
                    },
                    None => err_not_int_v(),
                },
                _ => err_type_v(),
            },
            None => RespV::Null,
        }
    } else {
        err_arg_num_v()
    }
}

/// `LSET key idx e`: the element at the resolved index is replaced, the
/// key keeping its expiry; out of range is the value-domain error, an
/// absent key its own error.
pub open spec fn lset_spec(m: StoreV, args: Seq<Seq<u8>>, now: u128) -> (RespV, StoreV) {
    if args.len() == 3 {
        match spec_get(m, args[0], now) {
            Some(v) => match v {
                ValueV::List(l) => match spec_parse_i64(args[1]) {
                    Some(idx) => {
                        let j = adj_idx(idx as int, l.len() as int);
                        if 0 <= j < l.len() {
                            (
                                ok_v(),
                                m.insert(args[0], (ValueV::List(l.update(j, args[2])), m[args[0]].1)),
                            )
                        } else {
                            (err_not_int_v(), m)
                        }
                    },
                    None => (err_not_int_v(), m),
                },
                _ => (err_type_v(), m),
            },
            None => (err_no_key_v(), m),
        }
    } else {
        (err_arg_num_v(), m)
    }
}

/// `LRANGE key from to`: the elements between the resolved bounds,
/// inclusive; an empty list answers the empty array whatever the bounds;
/// otherwise bounds out of range are the value-domain error; an absent
/// key is `Null`.
pub open spec fn lrange_spec(m: StoreV, args: Seq<Seq<u8>>, now: u128) -> RespV {
    if args.len() == 3 {
        match spec_get(m, args[0], now) {
            Some(v) => match v {
                ValueV::List(l) => {
                    if spec_parse_i64(args[1]) is Some && spec_parse_i64(args[2]) is Some {
                        let f0 = adj_idx(spec_parse_i64(args[1]).unwrap() as int, l.len() as int);
                        let e0 = adj_idx(spec_parse_i64(args[2]).unwrap() as int, l.len() as int);
                        if f0 >= 0 && e0 < l.len() && f0 <= e0 {
                            frame_of(l.subrange(f0, e0 + 1))
                        } else if l.len() == 0 {
                            frame_of(Seq::empty())
                        } else {
                            err_not_int_v()
                        }
                    } else {
                        err_not_int_v()
                    }
                },
                _ => err_type_v(),
            },
            None => RespV::Null,
        }
    } else {
        err_arg_num_v()
    }
}

/// The list without any occurrence of `x`.
pub open spec fn remove_all(l: Items, x: Seq<u8>) -> Items
    decreases l.len(),
{
    if l.len() == 0 {
        l
    } else {
        let rest = remove_all(l.drop_first(), x);
        if l[0] == x {
            rest
        } else {
            seq![l[0]] + rest
        }
    }
}

/// The list without the first `n` occurrences of `x`.
pub open spec fn remove_first_n(l: Items, x: Seq<u8>, n: int) -> Items
    decreases l.len(),
{
    if l.len() == 0 || n <= 0 {
        l
    } else if l[0] == x {
        remove_first_n(l.drop_first(), x, n - 1)
    } else {
        seq![l[0]] + remove_first_n(l.drop_first(), x, n)
    }
}

/// The list without the last `n` occurrences of `x`.
pub open spec fn remove_last_n(l: Items, x: Seq<u8>, n: int) -> Items
    decreases l.len(),
{
    if l.len() == 0 || n <= 0 {
        l
    } else if l.last() == x {
        remove_last_n(l.drop_last(), x, n - 1)
    } else {
        remove_last_n(l.drop_last(), x, n).push(l.last())
    }
}

/// What `LREM` keeps: a zero count removes every occurrence, a positive
/// count the first so many, a negative count the last so many.
pub open spec fn lrem_kept(l: Items, cnt: int, x: Seq<u8>) -> Items {
    if cnt == 0 {
        remove_all(l, x)
    } else if cnt > 0 {
        remove_first_n(l, x, cnt)
    } else {
        remove_last_n(l, x, -cnt)
    }
}

/// `LREM key count e`: removes occurrences of `e` as the sign of
/// `count` directs, keeps the key's expiry, and replies with how many
/// elements left; a count that does not read as a number is the
/// value-domain error; an absent key counts zero.
pub open spec fn lrem_spec(m: StoreV, args: Seq<Seq<u8>>, now: u128) -> (RespV, StoreV) {
    if args.len() == 3 {
        match spec_parse_i64(args[1]) {
            Some(cnt) => match spec_get(m, args[0], now) {
                None => (RespV::Integer(0), m),
                Some(v) => match v {
                    ValueV::List(l) => {
                        let kept = lrem_kept(l, cnt as int, args[2]);
                        (
                            RespV::Integer(int_sat(l.len() - kept.len())),
                            m.insert(args[0], (ValueV::List(kept), m[args[0]].1)),
                        )
                    },
                    _ => (err_type_v(), m),
                },
            },
            None => (err_not_int_v(), m),
        }
    } else {
        (err_arg_num_v(), m)
    }
}

/// What `LTRIM` keeps: the elements between the resolved bounds, each
/// clamped to the list, or nothing when they cross.
pub open spec fn ltrim_kept(l: Items, from: int, to: int) -> Items {
    let f0 = adj_idx(from, l.len() as int);
    let e0 = adj_idx(to, l.len() as int);
    let lo = if f0 < 0 {
        0
    } else {
        f0
    };
    let hi = if e0 > l.len() - 1 {
        l.len() - 1
    } else {
        e0
    };
    if lo > hi {
        Seq::empty()
    } else {
        l.subrange(lo, hi + 1)
    }
}

/// `LTRIM key from to`: the list shrinks to the resolved range, keeping
/// the key's expiry; bounds that do not read as numbers are the
/// value-domain error; an absent key is acknowledged untouched.
pub open spec fn ltrim_spec(m: StoreV, args: Seq<Seq<u8>>, now: u128) -> (RespV, StoreV) {
    if args.len() == 3 {
        if spec_parse_i64(args[1]) is Some && spec_parse_i64(args[2]) is Some {
            match spec_get(m, args[0], now) {
                Some(v) => match v {
                    ValueV::List(l) => (
                        ok_v(),
                        m.insert(
                            args[0],
                            (
                                ValueV::List(
                                    ltrim_kept(
                                        l,
                                        spec_parse_i64(args[1]).unwrap() as int,
                                        spec_parse_i64(args[2]).unwrap() as int,
                                    ),
                                ),
                                m[args[0]].1,
                            ),
                        ),
                    ),
                    _ => (err_type_v(), m),
                },
                None => (ok_v(), m),
            }
        } else {
            (err_not_int_v(), m)
        }
    } else {
        (err_arg_num_v(), m)
    }
}

/// The stored list under `key`: absent key, list, and another variant
/// told apart.
fn read_list(db: &Database, key: &[u8], now: u128) -> (r: Option<Option<Vec<Vec<u8>>>>)
    requires
        db.wf(),
    ensures
        match r {
            None => spec_get(db@, key@, now) is None,
            Some(o) => match o {
                Some(l) => spec_get(db@, key@, now) == Some(ValueV::List(views_of(l@))),
                None => spec_get(db@, key@, now) is Some && !(spec_get(db@, key@, now).unwrap()
                    is List),
            },
        },
{
    match db.get_at(key, now) {
        Some(v) => match v {
            Value::List(l) => Some(Some(clone_byte_vecs(l))),
            _ => Some(None),
        },
        None => None,
    }
}

/// The signed index resolved against the list length, in a width that
/// cannot overflow.
fn resolve_idx(idx: i64, len: usize) -> (r: i128)
    ensures
        r == adj_idx(idx as int, len as int),
        r < 2 * (len as int) || r == idx,
{
    if idx < 0 {
        (idx as i128) + (len as i128)
    } else {
        idx as i128
    }
}

pub struct HandleList;

impl HandleList {
    #[verifier::loop_isolation(false)]
    pub fn handle_lpush(db: &mut Database, command: &Command, now: u128) -> (r: RespValue)
        requires
            old(db).wf(),
        ensures
            final(db).wf(),
            (resp_view(r), final(db)@) == lpush_spec(old(db)@, command.args_view(), now),
    {
        let args = &command.args;
        if args.len() <= 1 {
            return err_arg_num();
        }
        let ghost tail = command.args_view().skip(1);
        match read_list(db, args[0].as_slice(), now) {
            Some(o) => match o {
                Some(l) => {
                    let ghost l0 = views_of(l@);
                    let mut nl = l;
                    let n = args.len();
                    let mut i: usize = 1;
                    proof {
                        assert(rev_seq(tail.take(0)) + l0 =~= views_of(nl@));
                    }
                    while i < n
                        invariant
                            1 <= i <= n,
                            views_of(nl@) == rev_seq(tail.take(i - 1)) + l0,
                            nl@.len() == i - 1 + l0.len(),
                        decreases n - i,
                    {
                        nl.insert(0, slice_to_vec(args[i].as_slice()));
                        proof {
                            assert(tail[i - 1] == command.args_view()[i as int]);
                            assert(views_of(nl@) =~= seq![tail[i - 1]] + (rev_seq(tail.take(i - 1))
                                + l0));
                            assert(rev_seq(tail.take(i as int)) =~= seq![tail[i - 1]] + rev_seq(
                                tail.take(i - 1),
                            ));
                            assert(views_of(nl@) =~= rev_seq(tail.take(i as int)) + l0);
                        }
                        i = i + 1;
                    }
                    proof {
                        assert(tail.take(n - 1) =~= tail);
                    }
                    let count = nl.len();
                    db.set_keep_ttl(args[0].as_slice(), Value::List(nl));
                    count_reply(count)
                },
                None => err_type(),
            },
            None => {
                let mut nl: Vec<Vec<u8>> = Vec::new();
                let n = args.len();
                let mut i: usize = 1;
                proof {
                    assert(rev_seq(tail.take(0)) =~= views_of(nl@));
                }
                while i < n
                    invariant
                        1 <= i <= n,
                        views_of(nl@) == rev_seq(tail.take(i - 1)),
                        nl@.len() == i - 1,
                    decreases n - i,
                {
                    nl.insert(0, slice_to_vec(args[i].as_slice()));
                    proof {
                        assert(tail[i - 1] == command.args_view()[i as int]);
                        assert(views_of(nl@) =~= seq![tail[i - 1]] + rev_seq(tail.take(i - 1)));
                        assert(rev_seq(tail.take(i as int)) =~= seq![tail[i - 1]] + rev_seq(
                            tail.take(i - 1),
                        ));
                    }
                    i = i + 1;
                }
                proof {
                    assert(tail.take(n - 1) =~= tail);
                }
                let count = nl.len();
                let key = slice_to_vec(args[0].as_slice());
                db.set(key, Value::List(nl));
                count_reply(count)
            },
        }
    }

    #[verifier::loop_isolation(false)]
    pub fn handle_rpush(db: &mut Database, command: &Command, now: u128) -> (r: RespValue)
        requires
            old(db).wf(),
        ensures
            final(db).wf(),
            (resp_view(r), final(db)@) == rpush_spec(old(db)@, command.args_view(), now),
    {
        let args = &command.args;
        if args.len() <= 1 {
            return err_arg_num();
        }
        let ghost tail = command.args_view().skip(1);
        let had: Option<Option<Vec<Vec<u8>>>> = read_list(db, args[0].as_slice(), now);
        match had {
            Some(o) => match o {
                Some(l) => {
                    let ghost l0 = views_of(l@);
                    let mut nl = l;
                    let n = args.len();
                    let mut i: usize = 1;
                    proof {
                        assert(l0 + tail.take(0) =~= views_of(nl@));
                    }
                    while i < n
                        invariant
                            1 <= i <= n,
                            views_of(nl@) == l0 + tail.take(i - 1),
                            nl@.len() == i - 1 + l0.len(),
                        decreases n - i,
                    {
                        nl.push(slice_to_vec(args[i].as_slice()));
                        proof {
                            assert(tail[i - 1] == command.args_view()[i as int]);
                            assert(views_of(nl@) =~= (l0 + tail.take(i - 1)).push(tail[i - 1]));
                            assert(l0 + tail.take(i as int) =~= (l0 + tail.take(i - 1)).push(
                                tail[i - 1],
                            ));
                        }
                        i = i + 1;
                    }
                    proof {
                        assert(tail.take(n - 1) =~= tail);
                    }
                    let count = nl.len();
                    db.set_keep_ttl(args[0].as_slice(), Value::List(nl));
                    count_reply(count)
                },
                None => err_type(),
            },
            None => {
                let mut nl: Vec<Vec<u8>> = Vec::new();
                let n = args.len();
                let mut i: usize = 1;
                proof {
                    assert(tail.take(0) =~= views_of(nl@));
                }
                while i < n
                    invariant
                        1 <= i <= n,
                        views_of(nl@) == tail.take(i - 1),
                        nl@.len() == i - 1,
                    decreases n - i,
                {
                    nl.push(slice_to_vec(args[i].as_slice()));
                    proof {
                        assert(tail[i - 1] == command.args_view()[i as int]);
                        assert(views_of(nl@) =~= tail.take(i - 1).push(tail[i - 1]));
                        assert(tail.take(i as int) =~= tail.take(i - 1).push(tail[i - 1]));
                    }
                    i = i + 1;
                }
                proof {
                    assert(tail.take(n - 1) =~= tail);
                }
                let count = nl.len();
                let key = slice_to_vec(args[0].as_slice());
                db.set(key, Value::List(nl));
                count_reply(count)
            },
        }
    }

    pub fn handle_lpop(db: &mut Database, command: &Command, now: u128) -> (r: RespValue)
        requires
            old(db).wf(),
        ensures
            final(db).wf(),
            (resp_view(r), final(db)@) == lpop_spec(old(db)@, command.args_view(), now),
    {
        let args = &command.args;
        if args.len() != 1 {
            return err_arg_num();
        }
        match read_list(db, args[0].as_slice(), now) {
            Some(o) => match o {
                Some(mut l) => {
                    if l.len() == 0 {
                        RespValue::Null
                    } else {
                        let ghost l0 = views_of(l@);
                        let head = l.remove(0);
                        proof {
                            assert(views_of(l@) =~= l0.drop_first());
                        }
                        db.set_keep_ttl(args[0].as_slice(), Value::List(l));
                        RespValue::BulkString(Some(head))
                    }
                },
                None => err_type(),
            },
            None => RespValue::Null,
        }
    }

    pub fn handle_rpop(db: &mut Database, command: &Command, now: u128) -> (r: RespValue)
        requires
            old(db).wf(),
        ensures
            final(db).wf(),
            (resp_view(r), final(db)@) == rpop_spec(old(db)@, command.args_view(), now),
    {
        let args = &command.args;
        if args.len() != 1 {
            return err_arg_num();
        }
        match read_list(db, args[0].as_slice(), now) {
            Some(o) => match o {
                Some(mut l) => {
                    if l.len() == 0 {
                        RespValue::Null
                    } else {
                        let ghost l0 = views_of(l@);
                        let tail = match l.pop() {
                            Some(e) => e,
                            None => vstd::pervasive::unreached(),
                        };
                        proof {
                            assert(views_of(l@) =~= l0.drop_last());
                        }
                        db.set_keep_ttl(args[0].as_slice(), Value::List(l));
                        RespValue::BulkString(Some(tail))
                    }
                },
                None => err_type(),
            },
            None => RespValue::Null,
        }
    }

    pub fn handle_llen(db: &Database, command: &Command, now: u128) -> (r: RespValue)
        requires
            db.wf(),
        ensures
            resp_view(r) == llen_spec(db@, command.args_view(), now),
    {
        let args = &command.args;
        if args.len() != 1 {
            return err_arg_num();
        }
        match db.get_at(args[0].as_slice(), now) {
            Some(v) => match v {
                Value::List(l) => count_reply(l.len()),
                _ => err_type(),
            },
            None => RespValue::Integer(0),
        }
    }

    pub fn handle_lindex(db: &Database, command: &Command, now: u128) -> (r: RespValue)
        requires
            db.wf(),
        ensures
            resp_view(r) == lindex_spec(db@, command.args_view(), now),
    {
        let args = &command.args;
        if args.len() != 2 {
            return err_arg_num();
        }
        match db.get_at(args[0].as_slice(), now) {
            Some(v) => match v {
                Value::List(l) => match parse_i64(args[1].as_slice()) {
                    Some(idx) => {
                        let j = resolve_idx(idx, l.len());
                        if 0 <= j && j < l.len() as i128 {
                            RespValue::BulkString(
                                Some(slice_to_vec(l[j as usize].as_slice())),
                            )
                        } else {
                            err_not_int()
                        }
                    },
                    None => err_not_int(),
                },
                _ => err_type(),
            },
            None => RespValue::Null,
        }
    }

    pub fn handle_lset(db: &mut Database, command: &Command, now: u128) -> (r: RespValue)
        requires
            old(db).wf(),
        ensures
            final(db).wf(),
            (resp_view(r), final(db)@) == lset_spec(old(db)@, command.args_view(), now),
    {
        let args = &command.args;
        if args.len() != 3 {
            return err_arg_num();
        }
        match read_list(db, args[0].as_slice(), now) {
            Some(o) => match o {
                Some(mut l) => match parse_i64(args[1].as_slice()) {
                    Some(idx) => {
                        let j = resolve_idx(idx, l.len());
                        if 0 <= j && j < l.len() as i128 {
                            let ghost l0 = views_of(l@);
                            l[j as usize] = slice_to_vec(args[2].as_slice());
                            proof {
                                assert(views_of(l@) =~= l0.update(
                                    adj_idx(idx as int, l0.len() as int),
                                    command.args_view()[2],
                                ));
                            }
                            db.set_keep_ttl(args[0].as_slice(), Value::List(l));
                            ok_reply()
                        } else {
                            err_not_int()
                        }
                    },
                    None => err_not_int(),
                },
                None => err_type(),
            },
            None => err_no_key(),
        }
    }

    #[verifier::loop_isolation(false)]
    pub fn handle_lrange(db: &Database, command: &Command, now: u128) -> (r: RespValue)
        requires
            db.wf(),
        ensures
            resp_view(r) == lrange_spec(db@, command.args_view(), now),
    {
        let args = &command.args;
        if args.len() != 3 {
            return err_arg_num();
        }
        match db.get_at(args[0].as_slice(), now) {
            Some(v) => match v {
                Value::List(l) => {
                    let pf = parse_i64(args[1].as_slice());
                    let pe = parse_i64(args[2].as_slice());
                    if pf.is_none() || pe.is_none() {
                        return err_not_int();
                    }
                    let ghost lv = views_of(l@);
                    let f = resolve_idx(pf.unwrap(), l.len());
                    let e = resolve_idx(pe.unwrap(), l.len());
                    if f >= 0 && e < l.len() as i128 && f <= e {
                        let fi = f as usize;
                        let ei = e as usize;
                        let mut out: Vec<Vec<u8>> = Vec::new();
                        let mut i = fi;
                        while i <= ei
                            invariant
                                fi <= i <= ei + 1,
                                ei < l@.len(),
                                out@.len() == i - fi,
                                forall|j: int|
                                    0 <= j < i - fi ==> (#[trigger] out@[j])@ == lv[fi + j],
                            decreases ei + 1 - i,
                        {
                            out.push(slice_to_vec(l[i].as_slice()));
                            i = i + 1;
                        }
                        proof {
                            assert(views_of(out@) =~= lv.subrange(fi as int, ei + 1));
                        }
                        bulk_array(out)
                    } else if l.len() == 0 {
                        let empty_items: Vec<Vec<u8>> = Vec::new();
                        proof {
                            assert(views_of(empty_items@) =~= Seq::<Seq<u8>>::empty());
                        }
                        bulk_array(empty_items)
                    } else {
                        err_not_int()
                    }
                },
                _ => err_type(),
            },
            None => RespValue::Null,
        }
    }

    #[verifier::loop_isolation(false)]
    #[verifier::rlimit(100)]
    pub fn handle_lrem(db: &mut Database, command: &Command, now: u128) -> (r: RespValue)
        requires
            old(db).wf(),
        ensures
            final(db).wf(),
            (resp_view(r), final(db)@) == lrem_spec(old(db)@, command.args_view(), now),
    {
        let args = &command.args;
        if args.len() != 3 {
            return err_arg_num();
        }
        let cnt = match parse_i64(args[1].as_slice()) {
            Some(c) => c,
            None => {
                return err_not_int();
            },
        };
        match read_list(db, args[0].as_slice(), now) {
            None => RespValue::Integer(0),
            Some(o) => match o {
                None => err_type(),
                Some(l) => {
                    let ghost l0 = views_of(l@);
                    let ghost x = command.args_view()[2];
                    let n = l.len();
                    let mut kept: Vec<Vec<u8>> = Vec::new();
                    let mut num: usize = 0;
                    if cnt >= 0 {
                        // forward pass: a zero count removes every
                        // occurrence, a positive one its first `cnt`
                        let mut budget: u64 = if cnt == 0 {
                            u64::MAX
                        } else {
                            cnt as u64
                        };
                        let all = cnt == 0;
                        let ghost spec_kept = lrem_kept(l0, cnt as int, x);
                        let mut i: usize = 0;
                        proof {
                            assert(l0.skip(0) =~= l0);
                        }
                        while i < n
                            invariant
                                0 <= i <= n,
                                n == l@.len(),
                                num + kept@.len() == i,
                                all == (cnt == 0),
                                all ==> (budget == u64::MAX && num <= i),
                                !all ==> cnt > 0 && budget == cnt - num && num <= cnt,
                                all ==> remove_all(l0, x) == views_of(kept@) + remove_all(
                                    l0.skip(i as int),
                                    x,
                                ),
                                !all ==> remove_first_n(l0, x, cnt as int) == views_of(kept@)
                                    + remove_first_n(l0.skip(i as int), x, budget as int),
                            decreases n - i,
                        {
                            proof {
                                assert(l0.skip(i as int)[0] == l0[i as int]);
                                assert(l0.skip(i as int).drop_first() =~= l0.skip(i + 1));
                                assert(l0[i as int] == l@[i as int]@);
                            }
                            let is_x = crate::bytestr::bytes_eq(
                                l[i].as_slice(),
                                args[2].as_slice(),
                            );
                            if is_x && budget > 0 {
                                num = num + 1;
                                if !all {
                                    budget = budget - 1;
                                }
                            } else {
                                kept.push(slice_to_vec(l[i].as_slice()));
                                proof {
                                    assert(views_of(kept@) =~= views_of(
                                        kept@.drop_last(),
                                    ).push(l0[i as int]));
                                    if all {
                                        assert(views_of(kept@.drop_last()) + (seq![l0[i as int]]
                                            + remove_all(l0.skip(i + 1), x)) =~= views_of(kept@)
                                            + remove_all(l0.skip(i + 1), x));
                                    } else {
                                        assert(views_of(kept@.drop_last()) + (seq![l0[i as int]]
                                            + remove_first_n(l0.skip(i + 1), x, budget as int))
                                            =~= views_of(kept@) + remove_first_n(
                                            l0.skip(i + 1),
                                            x,
                                            budget as int,
                                        ));
                                    }
                                }
                            }
                            i = i + 1;
                        }
                        proof {
                            assert(l0.skip(n as int) =~= Seq::<Seq<u8>>::empty());
                            assert(views_of(kept@) + Seq::<Seq<u8>>::empty() =~= views_of(kept@));
                            assert(views_of(kept@) == spec_kept);
                        }
                    } else {
                        // backward pass: a negative count removes the
                        // last `-cnt` occurrences
                        let mut budget: u64 = (-(cnt as i128)) as u64;
                        let ghost n0: int = -(cnt as int);
                        let ghost spec_kept = lrem_kept(l0, cnt as int, x);
                        let mut i: usize = n;
                        proof {
                            assert(l0.take(n as int) =~= l0);
                        }
                        while i > 0
                            invariant
                                0 <= i <= n,
                                n == l@.len(),
                                num + kept@.len() == n - i,
                                budget == n0 - num || (budget == 0 && num >= n0),
                                num <= n0,
                                remove_last_n(l0, x, n0) == remove_last_n(
                                    l0.take(i as int),
                                    x,
                                    budget as int,
                                ) + views_of(kept@),
                            decreases i,
                        {
                            proof {
                                assert(l0.take(i as int).last() == l0[i - 1]);
                                assert(l0.take(i as int).drop_last() =~= l0.take(i - 1));
                                assert(l0[i - 1] == l@[i - 1]@);
                            }
                            let is_x = crate::bytestr::bytes_eq(
                                l[i - 1].as_slice(),
                                args[2].as_slice(),
                            );
                            if is_x && budget > 0 {
                                num = num + 1;
                                budget = budget - 1;
                            } else {
                                kept.insert(0, slice_to_vec(l[i - 1].as_slice()));
                                proof {
                                    assert(views_of(kept@) =~= seq![l0[i - 1]] + views_of(
                                        kept@.drop_first(),
                                    ));
                                    assert(remove_last_n(l0.take(i - 1), x, budget as int).push(
                                        l0[i - 1],
                                    ) + views_of(kept@.drop_first()) =~= remove_last_n(
                                        l0.take(i - 1),
                                        x,
                                        budget as int,
                                    ) + views_of(kept@));
                                }
                            }
                            i = i - 1;
                        }
                        proof {
                            assert(l0.take(0) =~= Seq::<Seq<u8>>::empty());
                            assert(Seq::<Seq<u8>>::empty() + views_of(kept@) =~= views_of(kept@));
                            assert(views_of(kept@) == spec_kept);
                        }
                    }
                    proof {
                        assert(num + kept@.len() == l0.len());
                    }
                    db.set_keep_ttl(args[0].as_slice(), Value::List(kept));
                    count_reply(num)
                },
            },
        }
    }

    #[verifier::loop_isolation(false)]
    pub fn handle_ltrim(db: &mut Database, command: &Command, now: u128) -> (r: RespValue)
        requires
            old(db).wf(),
        ensures
            final(db).wf(),
            (resp_view(r), final(db)@) == ltrim_spec(old(db)@, command.args_view(), now),
    {
        let args = &command.args;
        if args.len() != 3 {
            return err_arg_num();
        }
        let pf = parse_i64(args[1].as_slice());
        let pe = parse_i64(args[2].as_slice());
        if pf.is_none() || pe.is_none() {
            return err_not_int();
        }
        match read_list(db, args[0].as_slice(), now) {
            None => ok_reply(),
            Some(o) => match o {
                None => err_type(),
                Some(l) => {
                    let ghost lv = views_of(l@);
                    let f = resolve_idx(pf.unwrap(), l.len());
                    let e = resolve_idx(pe.unwrap(), l.len());
                    let lo: i128 = if f < 0 {
                        0
                    } else {
                        f
                    };
                    let hi: i128 = if e > l.len() as i128 - 1 {
                        l.len() as i128 - 1
                    } else {
                        e
                    };
                    let mut out: Vec<Vec<u8>> = Vec::new();
                    if lo <= hi {
                        let fi = lo as usize;
                        let ei = hi as usize;
                        let mut i = fi;
                        while i <= ei
                            invariant
                                fi <= i <= ei + 1,
                                ei < l@.len(),
                                out@.len() == i - fi,
                                forall|j: int|
                                    0 <= j < i - fi ==> (#[trigger] out@[j])@ == lv[fi + j],
                            decreases ei + 1 - i,
                        {
                            out.push(slice_to_vec(l[i].as_slice()));
                            i = i + 1;
                        }
                        proof {
                            assert(views_of(out@) =~= lv.subrange(fi as int, ei + 1));
                        }
                    } else {
                        proof {
                            assert(views_of(out@) =~= Seq::<Seq<u8>>::empty());
                        }
                    }
                    db.set_keep_ttl(args[0].as_slice(), Value::List(out));
                    ok_reply()
                },
            },
        }
    }
}

} // verus!
