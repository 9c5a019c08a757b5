//! Hash-family handlers: `HSET`, `HGET`, `HGETALL`, `HDEL`, `HEXISTS`,
//! `HLEN`, `HKEYS`, `HVALS`.
//!
//! A hash is a field-to-value mapping with unique fields, held as a
//! pair sequence in insertion order.

use vstd::prelude::*;

use crate::bytestr::{bytes_eq, clone_byte_pairs, pair_views, views_of};
use crate::command::{
    bulk_array, count_reply, err_arg_num, err_arg_num_v, err_type, err_type_v, int_sat, Command,
};
use crate::protocol::{frame_of, resp_view, RespV, RespValue};
use crate::storage::{spec_get, Database, StoreV, Value, ValueV};
use vstd::slice::slice_to_vec;

verus! {

type Pairs = Seq<(Seq<u8>, Seq<u8>)>;

/// The position of the first pair holding field `f`; the length when no
/// pair does.
pub open spec fn dict_index(ps: Pairs, f: Seq<u8>) -> int
    decreases ps.len(),
{
    if ps.len() == 0 {
        0
    } else if ps[0].0 == f {
        0
    } else {
        1 + dict_index(ps.drop_first(), f)
    }
}

/// `dict_index` points at the first occurrence, or past the end.
pub proof fn lemma_dict_index(ps: Pairs, f: Seq<u8>)
    ensures
        0 <= dict_index(ps, f) <= ps.len(),
        forall|j: int| 0 <= j < dict_index(ps, f) ==> (#[trigger] ps[j]).0 != f,
        dict_index(ps, f) < ps.len() ==> ps[dict_index(ps, f)].0 == f,
    decreases ps.len(),
{
    if ps.len() > 0 && ps[0].0 != f {
        lemma_dict_index(ps.drop_first(), f);
        assert(forall|j: int| 0 <= j < ps.drop_first().len() ==> ps.drop_first()[j] == ps[j + 1]);
        assert forall|j: int| 0 <= j < dict_index(ps, f) implies (#[trigger] ps[j]).0 != f by {
            if j > 0 {
                assert(ps.drop_first()[j - 1] == ps[j]);
                assert((ps.drop_first()[j - 1]).0 != f);
            }
        }
        if dict_index(ps, f) < ps.len() {
            assert(ps.drop_first()[dict_index(ps.drop_first(), f)] == ps[dict_index(ps, f)]);
        }
    }
}

/// The value under field `f`, if any.
pub open spec fn dict_get(ps: Pairs, f: Seq<u8>) -> Option<Seq<u8>> {
    if dict_index(ps, f) < ps.len() {
        Some(ps[dict_index(ps, f)].1)
    } else {
        None
    }
}

/// The mapping with `f` bound to `v`: an existing binding is replaced in
/// place, a new one appended.
pub open spec fn dict_insert(ps: Pairs, f: Seq<u8>, v: Seq<u8>) -> Pairs {
    if dict_index(ps, f) < ps.len() {
        ps.update(dict_index(ps, f), (f, v))
    } else {
        ps.push((f, v))
    }
}

/// The mapping without field `f`.
pub open spec fn dict_remove(ps: Pairs, f: Seq<u8>) -> Pairs {
    if dict_index(ps, f) < ps.len() {
        ps.remove(dict_index(ps, f))
    } else {
        ps
    }
}

/// The field/value pairs of an `HSET` argument list: arguments pair up
/// after the key, in order.
pub open spec fn hpairs(args: Seq<Seq<u8>>) -> Pairs {
    Seq::new(((args.len() - 1) / 2) as nat, |i: int| (args[2 * i + 1], args[2 * i + 2]))
}

/// The mapping built by binding `pairs` left to right on top of `acc`:
/// a later pair with the same field wins.
pub open spec fn dict_from(acc: Pairs, pairs: Pairs) -> Pairs
    decreases pairs.len(),
{
    if pairs.len() == 0 {
        acc
    } else {
        dict_from(dict_insert(acc, pairs[0].0, pairs[0].1), pairs.drop_first())
    }
}

/// Pairwise-distinct fields survive one binding.
pub proof fn lemma_dict_insert_wf(ps: Pairs, f: Seq<u8>, v: Seq<u8>)
    requires
        ValueV::Hash(ps).wf(),
    ensures
        ValueV::Hash(dict_insert(ps, f, v)).wf(),
{
    lemma_dict_index(ps, f);
    let i = dict_index(ps, f);
    let ps2 = dict_insert(ps, f, v);
    if i < ps.len() {
        assert(ps[i].0 == f);
        assert forall|a: int, b: int| 0 <= a < b < ps2.len() implies (#[trigger] ps2[a]).0 != (
        #[trigger] ps2[b]).0 by {
            assert(ps[a].0 != ps[b].0);
            if a == i {
                assert(ps2[a].0 == f);
                assert(ps2[b] == ps[b]);
            } else if b == i {
                assert(ps2[b].0 == f);
                assert(ps2[a] == ps[a]);
            } else {
                assert(ps2[a] == ps[a]);
                assert(ps2[b] == ps[b]);
            }
        }
    } else {
        assert forall|a: int, b: int| 0 <= a < b < ps2.len() implies (#[trigger] ps2[a]).0 != (
        #[trigger] ps2[b]).0 by {
            if b == ps.len() {
                assert(ps2[b].0 == f);
                assert(ps2[a] == ps[a]);
                assert(ps[a].0 != f);
            } else {
                assert(ps2[a] == ps[a]);
                assert(ps2[b] == ps[b]);
                assert(ps[a].0 != ps[b].0);
            }
        }
    }
}

/// Pairwise-distinct fields survive one removal.
pub proof fn lemma_dict_remove_wf(ps: Pairs, f: Seq<u8>)
    requires
        ValueV::Hash(ps).wf(),
    ensures
        ValueV::Hash(dict_remove(ps, f)).wf(),
{
    lemma_dict_index(ps, f);
    let i = dict_index(ps, f);
    if i < ps.len() {
        let ps2 = ps.remove(i);
        assert forall|a: int, b: int| 0 <= a < b < ps2.len() implies (#[trigger] ps2[a]).0 != (
        #[trigger] ps2[b]).0 by {
            let ra = if a < i {
                a
            } else {
                a + 1
            };
            let rb = if b < i {
                b
            } else {
                b + 1
            };
            assert(ps2[a] == ps[ra]);
            assert(ps2[b] == ps[rb]);
            assert(ps[ra].0 != ps[rb].0);
        }
    }
}

/// Removing the fields left to right: how many were bound, and what is
/// left of the mapping.
pub open spec fn hdel_all(ps: Pairs, fields: Seq<Seq<u8>>) -> (int, Pairs)
    decreases fields.len(),
{
    if fields.len() == 0 {
        (0, ps)
    } else {
        let hit: int = if dict_index(ps, fields[0]) < ps.len() {
            1
        } else {
            0
        };
        let rec = hdel_all(dict_remove(ps, fields[0]), fields.drop_first());
        (hit + rec.0, rec.1)
    }
}

/// `HSET key f v [f v ...]`: on an absent key or one holding a hash, the
/// whole hash is replaced by the given pairs (clearing any expiry) and
/// the number of given pairs is returned; any other stored variant is
/// the type error; an even argument count is the arity error.
pub open spec fn hset_spec(m: StoreV, args: Seq<Seq<u8>>, now: u128) -> (RespV, StoreV) {
    if args.len() % 2 == 1 && args.len() != 1 {
        let k = args[0];
        let writable = match spec_get(m, k, now) {
            None => true,
            Some(v) => v is Hash,
        };
        if writable {
            (
                RespV::Integer(int_sat((args.len() / 2) as int)),
                m.insert(k, (ValueV::Hash(dict_from(Seq::empty(), hpairs(args))), None)),
            )
        } else {
            (err_type_v(), m)
        }
    } else {
        (err_arg_num_v(), m)
    }
}

/// `HGET key field`: the bound value, `Null` when the key or field is
/// absent, the type error on another variant.
pub open spec fn hget_spec(m: StoreV, args: Seq<Seq<u8>>, now: u128) -> RespV {
    if args.len() == 2 {
        match spec_get(m, args[0], now) {
            Some(v) => match v {
                ValueV::Hash(ps) => match dict_get(ps, args[1]) {
                    Some(t) => RespV::BulkString(Some(t)),
                    None => RespV::Null,
                },
                _ => err_type_v(),
            },
            None => RespV::Null,
        }
    } else {
        err_arg_num_v()
    }
}

/// The pairs flattened to `field, value, field, value, ...`.
pub open spec fn flat_pairs(ps: Pairs) -> Seq<Seq<u8>> {
    Seq::new((2 * ps.len()) as nat, |i: int| if i % 2 == 0 {
        ps[i / 2].0
    } else {
        ps[i / 2].1
    })
}

/// The fields in order.
pub open spec fn firsts(ps: Pairs) -> Seq<Seq<u8>> {
    ps.map_values(|p: (Seq<u8>, Seq<u8>)| p.0)
}

/// The values in order.
pub open spec fn seconds(ps: Pairs) -> Seq<Seq<u8>> {
    ps.map_values(|p: (Seq<u8>, Seq<u8>)| p.1)
}

/// `HGETALL key`: every pair, flattened; an absent key is the empty
/// array.
pub open spec fn hgetall_spec(m: StoreV, args: Seq<Seq<u8>>, now: u128) -> RespV {
    if args.len() == 1 {
        match spec_get(m, args[0], now) {
            None => frame_of(Seq::empty()),
            Some(v) => match v {
                ValueV::Hash(ps) => frame_of(flat_pairs(ps)),
                _ => err_type_v(),
            },
        }
    } else {
        err_arg_num_v()
    }
}

/// `HDEL key field...`: the named fields leave the hash in place (the
/// key keeps its expiry) and the count of fields that were bound is
/// returned; an absent key counts zero.
pub open spec fn hdel_spec(m: StoreV, args: Seq<Seq<u8>>, now: u128) -> (RespV, StoreV) {
    if args.len() >= 2 {
        match spec_get(m, args[0], now) {
            Some(v) => match v {
                ValueV::Hash(ps) => {
                    let rec = hdel_all(ps, args.skip(1));
                    (
                        RespV::Integer(int_sat(rec.0)),
                        m.insert(args[0], (ValueV::Hash(rec.1), m[args[0]].1)),
                    )
                },
                _ => (err_type_v(), m),
            },
            None => (RespV::Integer(0), m),
        }
    } else {
        (err_arg_num_v(), m)
    }
}

/// `HEXISTS key field`: one when the field is bound, else zero.
pub open spec fn hexists_spec(m: StoreV, args: Seq<Seq<u8>>, now: u128) -> RespV {
    if args.len() == 2 {
        match spec_get(m, args[0], now) {
            Some(v) => match v {
                ValueV::Hash(ps) => RespV::Integer(
                    if dict_get(ps, args[1]) is Some {
                        1int
                    } else {
                        0int
                    },
                ),
                _ => err_type_v(),
            },
            None => RespV::Integer(0),
        }
    } else {
        err_arg_num_v()
    }
}

/// `HLEN key`: the number of fields; an absent key counts zero.
pub open spec fn hlen_spec(m: StoreV, args: Seq<Seq<u8>>, now: u128) -> RespV {
    if args.len() == 1 {
        match spec_get(m, args[0], now) {
            Some(v) => match v {
                ValueV::Hash(ps) => RespV::Integer(int_sat(ps.len() as int)),
                _ => err_type_v(),
            },
            None => RespV::Integer(0),
        }
    } else {
        err_arg_num_v()
    }
}

/// `HKEYS key`: the fields; an absent key is the empty array.
pub open spec fn hkeys_spec(m: StoreV, args: Seq<Seq<u8>>, now: u128) -> RespV {
    if args.len() == 1 {
        match spec_get(m, args[0], now) {
            Some(v) => match v {
                ValueV::Hash(ps) => frame_of(firsts(ps)),
                _ => err_type_v(),
            },
            None => frame_of(Seq::empty()),
        }
    } else {
        err_arg_num_v()
    }
}

/// `HVALS key`: the values; an absent key is the empty array.
pub open spec fn hvals_spec(m: StoreV, args: Seq<Seq<u8>>, now: u128) -> RespV {
    if args.len() == 1 {
        match spec_get(m, args[0], now) {
            Some(v) => match v {
                ValueV::Hash(ps) => frame_of(seconds(ps)),
                _ => err_type_v(),
            },
            None => frame_of(Seq::empty()),
        }
    } else {
        err_arg_num_v()
    }
}

/// Index of the pair bound to `f`, if any.
#[verifier::loop_isolation(false)]
fn find_field(ps: &Vec<(Vec<u8>, Vec<u8>)>, f: &[u8]) -> (r: usize)
    ensures
        r == dict_index(pair_views(ps@), f@),
        r <= ps@.len(),
{
    let ghost pv = pair_views(ps@);
    proof {
        lemma_dict_index(pv, f@);
    }
    let n = ps.len();
    let mut i: usize = 0;
    while i < n
        invariant
            0 <= i <= n,
            forall|j: int| 0 <= j < i ==> (#[trigger] pv[j]).0 != f@,
        decreases n - i,
    {
        if bytes_eq(ps[i].0.as_slice(), f) {
            proof {
                assert(pv[i as int].0 == f@);
            }
            return i;
        }
        proof {
            assert(pv[i as int].0 == ps@[i as int].0@);
        }
        i = i + 1;
    }
    n
}

/// Binds `f` to `v` in place.
#[verifier::loop_isolation(false)]
fn insert_field(ps: &mut Vec<(Vec<u8>, Vec<u8>)>, f: Vec<u8>, v: Vec<u8>)
    ensures
        pair_views(final(ps)@) == dict_insert(pair_views(old(ps)@), f@, v@),
{
    let i = find_field(ps, f.as_slice());
    if i < ps.len() {
        ps[i] = (f, v);
        proof {
            assert(pair_views(ps@) =~= pair_views(old(ps)@).update(
                dict_index(pair_views(old(ps)@), f@),
                (f@, v@),
            ));
        }
    } else {
        ps.push((f, v));
        proof {
            assert(pair_views(ps@) =~= pair_views(old(ps)@).push((f@, v@)));
        }
    }
}

/// The stored hash pairs under `key`: absent key, hash, and another
/// variant told apart.
fn read_hash(db: &Database, key: &[u8], now: u128) -> (r: Option<Option<Vec<(Vec<u8>, Vec<u8>)>>>)
    requires
        db.wf(),
    ensures
        match r {
            None => spec_get(db@, key@, now) is None,
            Some(o) => match o {
                Some(ps) => spec_get(db@, key@, now) == Some(ValueV::Hash(pair_views(ps@)))
                    && ValueV::Hash(pair_views(ps@)).wf(),
                None => spec_get(db@, key@, now) is Some && !(spec_get(db@, key@, now).unwrap()
                    is Hash),
            },
        },
{
    match db.get_at(key, now) {
        Some(v) => match v {
            Value::Hash(ps) => Some(Some(clone_byte_pairs(ps))),
            _ => Some(None),
        },
        None => None,
    }
}

pub struct HandleHash;

impl HandleHash {
    #[verifier::loop_isolation(false)]
    #[verifier::rlimit(60)]
    pub fn handle_hset(db: &mut Database, command: &Command, now: u128) -> (r: RespValue)
        requires
            old(db).wf(),
        ensures
            final(db).wf(),
            (resp_view(r), final(db)@) == hset_spec(old(db)@, command.args_view(), now),
    {
        let args = &command.args;
        let len = args.len();
        if len % 2 == 1 && len != 1 {
            let writable = match db.get_at(args[0].as_slice(), now) {
                None => true,
                Some(v) => match v {
                    Value::Hash(_) => true,
                    _ => false,
                },
            };
            if writable {
                let ghost pairs = hpairs(command.args_view());
                let mut ps: Vec<(Vec<u8>, Vec<u8>)> = Vec::new();
                let mut i: usize = 1;
                proof {
                    assert(pairs.skip(0) =~= pairs);
                    assert(pair_views(ps@) =~= Seq::<(Seq<u8>, Seq<u8>)>::empty());
                }
                while i < len
                    invariant
                        1 <= i <= len,
                        i % 2 == 1,
                        len == args@.len(),
                        len % 2 == 1,
                        pairs.len() == (len - 1) / 2,
                        dict_from(Seq::empty(), pairs) == dict_from(
                            pair_views(ps@),
                            pairs.skip(((i - 1) / 2) as int),
                        ),
                        ValueV::Hash(pair_views(ps@)).wf(),
                    decreases len - i,
                {
                    let f = slice_to_vec(args[i].as_slice());
                    let v = slice_to_vec(args[i + 1].as_slice());
                    let ghost k: int = ((i - 1) / 2) as int;
                    proof {
                        assert(pairs[k] == (args@[i as int]@, args@[i + 1]@));
                        assert(pairs.skip(k)[0] == pairs[k]);
                        assert(pairs.skip(k).drop_first() =~= pairs.skip(k + 1));
                        lemma_dict_insert_wf(pair_views(ps@), f@, v@);
                    }
                    insert_field(&mut ps, f, v);
                    i = i + 2;
                }
                proof {
                    assert(pairs.skip(((len - 1) / 2) as int) =~= Seq::<(Seq<u8>, Seq<u8>)>::empty());
                    assert(dict_from(Seq::empty(), pairs) == pair_views(ps@));
                }
                let key = slice_to_vec(args[0].as_slice());
                db.set(key, Value::Hash(ps));
                count_reply(len / 2)
            } else {
                err_type()
            }
        } else {
            err_arg_num()
        }
    }

    pub fn handle_hget(db: &Database, command: &Command, now: u128) -> (r: RespValue)
        requires
            db.wf(),
        ensures
            resp_view(r) == hget_spec(db@, command.args_view(), now),
    {
        let args = &command.args;
        if args.len() == 2 {
            match db.get_at(args[0].as_slice(), now) {
                Some(v) => match v {
                    Value::Hash(ps) => {
                        let i = find_field(ps, args[1].as_slice());
                        proof {
                            lemma_dict_index(pair_views(ps@), args@[1]@);
                        }
                        if i < ps.len() {
                            RespValue::BulkString(Some(slice_to_vec(ps[i].1.as_slice())))
                        } else {
                            RespValue::Null
                        }
                    },
                    _ => err_type(),
                },
                None => RespValue::Null,
            }
        } else {
            err_arg_num()
        }
    }

    #[verifier::loop_isolation(false)]
    pub fn handle_hgetall(db: &Database, command: &Command, now: u128) -> (r: RespValue)
        requires
            db.wf(),
        ensures
            resp_view(r) == hgetall_spec(db@, command.args_view(), now),
    {
        let args = &command.args;
        if args.len() == 1 {
            match db.get_at(args[0].as_slice(), now) {
                None => {
                    let e: Vec<Vec<u8>> = Vec::new();
                    proof {
                        assert(views_of(e@) =~= Seq::<Seq<u8>>::empty());
                    }
                    bulk_array(e)
                },
                Some(v) => match v {
                    Value::Hash(ps) => {
                        let ghost pv = pair_views(ps@);
                        let mut flat: Vec<Vec<u8>> = Vec::new();
                        let n = ps.len();
                        let mut i: usize = 0;
                        while i < n
                            invariant
                                0 <= i <= n,
                                flat@.len() == 2 * i,
                                forall|j: int|
                                    0 <= j < 2 * i ==> (#[trigger] flat@[j])@ == flat_pairs(pv)[j],
                            decreases n - i,
                        {
                            let p = &ps[i];
                            flat.push(slice_to_vec(p.0.as_slice()));
                            flat.push(slice_to_vec(p.1.as_slice()));
                            proof {
                                assert(pv[i as int] == (ps@[i as int].0@, ps@[i as int].1@));
                            }
                            i = i + 1;
                        }
                        proof {
                            assert(views_of(flat@) =~= flat_pairs(pv));
                        }
                        bulk_array(flat)
                    },
                    _ => err_type(),
                },
            }
        } else {
            err_arg_num()
        }
    }

    #[verifier::loop_isolation(false)]
    pub fn handle_hdel(db: &mut Database, command: &Command, now: u128) -> (r: RespValue)
        requires
            old(db).wf(),
        ensures
            final(db).wf(),
            (resp_view(r), final(db)@) == hdel_spec(old(db)@, command.args_view(), now),
    {
        let args = &command.args;
        if args.len() < 2 {
            return err_arg_num();
        }
        match read_hash(db, args[0].as_slice(), now) {
            None => RespValue::Integer(0),
            Some(o) => match o {
                None => err_type(),
                Some(mut ps) => {
                    let ghost ps0 = pair_views(ps@);
                    let ghost fields = command.args_view().skip(1);
                    let mut num: usize = 0;
                    let n = args.len();
                    let mut i: usize = 1;
                    proof {
                        assert(fields.skip(0) =~= fields);
                    }
                    while i < n
                        invariant
                            1 <= i <= n,
                            num <= i,
                            n == args@.len(),
                            fields.len() == n - 1,
                            ValueV::Hash(pair_views(ps@)).wf(),
                            hdel_all(ps0, fields).0 == num + hdel_all(
                                pair_views(ps@),
                                fields.skip(i - 1),
                            ).0,
                            hdel_all(ps0, fields).1 == hdel_all(
                                pair_views(ps@),
                                fields.skip(i - 1),
                            ).1,
                        decreases n - i,
                    {
                        let ghost pv = pair_views(ps@);
                        proof {
                            assert(fields[i - 1] == args@[i as int]@);
                            assert(fields.skip(i - 1)[0] == fields[i - 1]);
                            assert(fields.skip(i - 1).drop_first() =~= fields.skip(i as int));
                            lemma_dict_index(pv, args@[i as int]@);
                            lemma_dict_remove_wf(pv, args@[i as int]@);
                        }
                        let j = find_field(&ps, args[i].as_slice());
                        if j < ps.len() {
                            ps.remove(j);
                            proof {
                                assert(pair_views(ps@) =~= pv.remove(dict_index(
                                    pv,
                                    args@[i as int]@,
                                )));
                            }
                            num = num + 1;
                        }
                        i = i + 1;
                    }
                    proof {
                        assert(fields.skip(n - 1) =~= Seq::<Seq<u8>>::empty());
                    }
                    let key = slice_to_vec(args[0].as_slice());
                    db.set_keep_ttl(key.as_slice(), Value::Hash(ps));
                    count_reply(num)
                },
            },
        }
    }

    pub fn handle_hexists(db: &Database, command: &Command, now: u128) -> (r: RespValue)
        requires
            db.wf(),
        ensures
            resp_view(r) == hexists_spec(db@, command.args_view(), now),
    {
        let args = &command.args;
        if args.len() == 2 {
            match db.get_at(args[0].as_slice(), now) {
                Some(v) => match v {
                    Value::Hash(ps) => {
                        let i = find_field(ps, args[1].as_slice());
                        if i < ps.len() {
                            RespValue::Integer(1)
                        } else {
                            RespValue::Integer(0)
                        }
                    },
                    _ => err_type(),
                },
                None => RespValue::Integer(0),
            }
        } else {
            err_arg_num()
        }
    }

    pub fn handle_hlen(db: &Database, command: &Command, now: u128) -> (r: RespValue)
        requires
            db.wf(),
        ensures
            resp_view(r) == hlen_spec(db@, command.args_view(), now),
    {
        let args = &command.args;
        if args.len() == 1 {
            match db.get_at(args[0].as_slice(), now) {
                Some(v) => match v {
                    Value::Hash(ps) => count_reply(ps.len()),
                    _ => err_type(),
                },
                None => RespValue::Integer(0),
            }
        } else {
            err_arg_num()
        }
    }

    #[verifier::loop_isolation(false)]
    pub fn handle_hkeys(db: &Database, command: &Command, now: u128) -> (r: RespValue)
        requires
            db.wf(),
        ensures
            resp_view(r) == hkeys_spec(db@, command.args_view(), now),
    {
        let args = &command.args;
        if args.len() == 1 {
            match db.get_at(args[0].as_slice(), now) {
                Some(v) => match v {
                    Value::Hash(ps) => {
                        let ghost pv = pair_views(ps@);
                        let mut out: Vec<Vec<u8>> = Vec::new();
                        let n = ps.len();
                        let mut i: usize = 0;
                        while i < n
                            invariant
                                0 <= i <= n,
                                out@.len() == i,
                                forall|j: int| 0 <= j < i ==> (#[trigger] out@[j])@ == pv[j].0,
                            decreases n - i,
                        {
                            out.push(slice_to_vec(ps[i].0.as_slice()));
                            proof {
                                assert(pv[i as int] == (ps@[i as int].0@, ps@[i as int].1@));
                            }
                            i = i + 1;
                        }
                        proof {
                            assert(views_of(out@) =~= firsts(pv));
                        }
                        bulk_array(out)
                    },
                    _ => err_type(),
                },
                None => {
                    let e: Vec<Vec<u8>> = Vec::new();
                    proof {
                        assert(views_of(e@) =~= Seq::<Seq<u8>>::empty());
                    }
                    bulk_array(e)
                },
            }
        } else {
            err_arg_num()
        }
    }

    #[verifier::loop_isolation(false)]
    pub fn handle_hvals(db: &Database, command: &Command, now: u128) -> (r: RespValue)
        requires
            db.wf(),
        ensures
            resp_view(r) == hvals_spec(db@, command.args_view(), now),
    {
        let args = &command.args;
        if args.len() == 1 {
            match db.get_at(args[0].as_slice(), now) {
                Some(v) => match v {
                    Value::Hash(ps) => {
                        let ghost pv = pair_views(ps@);
                        let mut out: Vec<Vec<u8>> = Vec::new();
                        let n = ps.len();
                        let mut i: usize = 0;
                        while i < n
                            invariant
                                0 <= i <= n,
                                out@.len() == i,
                                forall|j: int| 0 <= j < i ==> (#[trigger] out@[j])@ == pv[j].1,
                            decreases n - i,
                        {
                            out.push(slice_to_vec(ps[i].1.as_slice()));
                            proof {
                                assert(pv[i as int] == (ps@[i as int].0@, ps@[i as int].1@));
                            }
                            i = i + 1;
                        }
                        proof {
                            assert(views_of(out@) =~= seconds(pv));
                        }
                        bulk_array(out)
                    },
                    _ => err_type(),
                },
                None => {
                    let e: Vec<Vec<u8>> = Vec::new();
                    proof {
                        assert(views_of(e@) =~= Seq::<Seq<u8>>::empty());
                    }
                    bulk_array(e)
                },
            }
        } else {
            err_arg_num()
        }
    }
}

} // verus!
