//! Set-family handlers: `SADD`, `SCARD`, `SMEMBERS`, `SREM`,
//! `SISMEMBER`, `SINTER`, `SINTERSTORE`, `SUNION`, `SUNIONSTORE`,
//! `SDIFF`, `SDIFFSTORE`.
//!
//! A set holds unique members in insertion order; the algebra operations
//! treat a missing source key as the empty set.

use vstd::prelude::*;

use crate::bytestr::{bytes_eq, clone_byte_vecs, contains_bytes, views_of};
use crate::command::{
    bulk_array, count_reply, err_arg_num, err_arg_num_v, err_type, err_type_v, int_sat, Command,
};
use crate::protocol::{frame_of, resp_view, RespV, RespValue};
use crate::storage::{elems_unique, spec_get, Database, StoreV, Value, ValueV};
use vstd::slice::slice_to_vec;

verus! {

type Items = Seq<Seq<u8>>;

/// Membership in a one-longer sequence.
proof fn lemma_cons_contains(e: Seq<u8>, s: Items, x: Seq<u8>)
    ensures
        (seq![e] + s).contains(x) <==> (x == e || s.contains(x)),
{
    if x == e {
        assert((seq![e] + s)[0] == x);
    }
    if s.contains(x) {
        let i = choose|i: int| 0 <= i < s.len() && s[i] == x;
        assert((seq![e] + s)[i + 1] == x);
    }
    if (seq![e] + s).contains(x) {
        let i = choose|i: int| 0 <= i < (seq![e] + s).len() && (seq![e] + s)[i] == x;
        if i > 0 {
            assert(s[i - 1] == x);
        }
    }
}

/// A unique sequence does not hold its head in its tail.
proof fn lemma_unique_head(s: Items)
    requires
        elems_unique(s),
        s.len() > 0,
    ensures
        !s.drop_first().contains(s[0]),
        elems_unique(s.drop_first()),
{
    if s.drop_first().contains(s[0]) {
        let i = choose|i: int| 0 <= i < s.drop_first().len() && s.drop_first()[i] == s[0];
        assert(s[i + 1] == s[0]);
    }
    assert forall|a: int, b: int| 0 <= a < b < s.drop_first().len() implies (
    #[trigger] s.drop_first()[a]) != (#[trigger] s.drop_first()[b]) by {
        assert(s.drop_first()[a] == s[a + 1]);
        assert(s.drop_first()[b] == s[b + 1]);
    }
}

/// The member added unless already present.
pub open spec fn set_insert(es: Items, x: Seq<u8>) -> Items {
    if es.contains(x) {
        es
    } else {
        es.push(x)
    }
}

/// The members added left to right.
pub open spec fn set_add_all(es: Items, xs: Items) -> Items
    decreases xs.len(),
{
    if xs.len() == 0 {
        es
    } else {
        set_add_all(set_insert(es, xs[0]), xs.drop_first())
    }
}

/// Uniqueness survives adding members.
pub proof fn lemma_set_add_all_wf(es: Items, xs: Items)
    requires
        elems_unique(es),
    ensures
        elems_unique(set_add_all(es, xs)),
        set_add_all(es, xs).len() >= es.len(),
    decreases xs.len(),
{
    if xs.len() > 0 {
        let es2 = set_insert(es, xs[0]);
        assert(elems_unique(es2)) by {
            if !es.contains(xs[0]) {
                assert forall|a: int, b: int| 0 <= a < b < es2.len() implies (#[trigger] es2[a])
                    != (#[trigger] es2[b]) by {
                    if b == es.len() {
                        assert(es2[a] == es[a]);
                        assert(es.contains(es[a]));
                    } else {
                        assert(es2[a] == es[a]);
                        assert(es2[b] == es[b]);
                    }
                }
            }
        }
        lemma_set_add_all_wf(es2, xs.drop_first());
    }
}

/// The position of the first occurrence of `x`; the length when absent.
pub open spec fn set_index(es: Items, x: Seq<u8>) -> int
    decreases es.len(),
{
    if es.len() == 0 {
        0
    } else if es[0] == x {
        0
    } else {
        1 + set_index(es.drop_first(), x)
    }
}

/// `set_index` points at the first occurrence, or past the end, and
/// agrees with membership.
pub proof fn lemma_set_index(es: Items, x: Seq<u8>)
    ensures
        0 <= set_index(es, x) <= es.len(),
        forall|j: int| 0 <= j < set_index(es, x) ==> (#[trigger] es[j]) != x,
        set_index(es, x) < es.len() ==> es[set_index(es, x)] == x,
        (set_index(es, x) < es.len()) == es.contains(x),
    decreases es.len(),
{
    if es.len() > 0 && es[0] != x {
        lemma_set_index(es.drop_first(), x);
        assert(forall|j: int| 0 <= j < es.drop_first().len() ==> es.drop_first()[j] == es[j + 1]);
        assert forall|j: int| 0 <= j < set_index(es, x) implies (#[trigger] es[j]) != x by {
            if j > 0 {
                assert(es.drop_first()[j - 1] == es[j]);
            }
        }
        if set_index(es, x) < es.len() {
            assert(es.drop_first()[set_index(es.drop_first(), x)] == es[set_index(es, x)]);
        }
        if es.contains(x) {
            let i = choose|i: int| 0 <= i < es.len() && es[i] == x;
            assert(es.drop_first()[i - 1] == x);
            assert(es.drop_first().contains(x));
        }
        if es.drop_first().contains(x) {
            let i = choose|i: int|
                0 <= i < es.drop_first().len() && es.drop_first()[i] == x;
            assert(es[i + 1] == x);
        }
    }
}

/// The member removed, if present.
pub open spec fn set_remove(es: Items, x: Seq<u8>) -> Items {
    if set_index(es, x) < es.len() {
        es.remove(set_index(es, x))
    } else {
        es
    }
}

/// Uniqueness survives removing a member.
pub proof fn lemma_set_remove_wf(es: Items, x: Seq<u8>)
    requires
        elems_unique(es),
    ensures
        elems_unique(set_remove(es, x)),
{
    lemma_set_index(es, x);
    let i = set_index(es, x);
    if i < es.len() {
        let es2 = es.remove(i);
        assert forall|a: int, b: int| 0 <= a < b < es2.len() implies (#[trigger] es2[a]) != (
        #[trigger] es2[b]) by {
            let ra = if a < i {
                a
            } else {
                a + 1
            };
            let rb = if b < i {
                b
            } else {
                b + 1
            };
            assert(es2[a] == es[ra]);
            assert(es2[b] == es[rb]);
            assert(es[ra] != es[rb]);
        }
    }
}

/// Removing the members left to right: how many were present, and what
/// is left.
pub open spec fn srem_all(es: Items, xs: Items) -> (int, Items)
    decreases xs.len(),
{
    if xs.len() == 0 {
        (0, es)
    } else {
        let hit: int = if set_index(es, xs[0]) < es.len() {
            1
        } else {
            0
        };
        let rec = srem_all(set_remove(es, xs[0]), xs.drop_first());
        (hit + rec.0, rec.1)
    }
}

/// The members of `a` also in `b`, in `a`'s order.
pub open spec fn seq_inter(a: Items, b: Items) -> Items
    decreases a.len(),
{
    if a.len() == 0 {
        a
    } else {
        let rest = seq_inter(a.drop_first(), b);
        if b.contains(a[0]) {
            seq![a[0]] + rest
        } else {
            rest
        }
    }
}

/// The members of `a` not in `b`, in `a`'s order.
pub open spec fn seq_diff(a: Items, b: Items) -> Items
    decreases a.len(),
{
    if a.len() == 0 {
        a
    } else {
        let rest = seq_diff(a.drop_first(), b);
        if !b.contains(a[0]) {
            seq![a[0]] + rest
        } else {
            rest
        }
    }
}

/// The members of `a`, then those of `b` not already in `a`.
pub open spec fn seq_union(a: Items, b: Items) -> Items {
    a + seq_diff(b, a)
}

/// The intersection holds exactly the common members, each once.
pub proof fn lemma_seq_inter_props(a: Items, b: Items)
    requires
        elems_unique(a),
    ensures
        elems_unique(seq_inter(a, b)),
        forall|x: Seq<u8>|
            #[trigger] seq_inter(a, b).contains(x) <==> (a.contains(x) && b.contains(x)),
    decreases a.len(),
{
    if a.len() > 0 {
        lemma_unique_head(a);
        lemma_seq_inter_props(a.drop_first(), b);
        let rest = seq_inter(a.drop_first(), b);
        assert forall|x: Seq<u8>| #[trigger] a.contains(x) implies (x == a[0]
            || a.drop_first().contains(x)) by {
            let i = choose|i: int| 0 <= i < a.len() && a[i] == x;
            if i > 0 {
                assert(a.drop_first()[i - 1] == x);
            }
        }
        assert(forall|x: Seq<u8>| #[trigger] a.drop_first().contains(x) ==> a.contains(x)) by {
            assert forall|x: Seq<u8>| #[trigger] a.drop_first().contains(x) implies a.contains(
                x,
            ) by {
                let i = choose|i: int| 0 <= i < a.drop_first().len() && a.drop_first()[i] == x;
                assert(a[i + 1] == x);
            }
        }
        assert(a.contains(a[0]));
        if b.contains(a[0]) {
            assert forall|x: Seq<u8>| true implies (#[trigger] seq_inter(a, b).contains(x) <==> (
            a.contains(x) && b.contains(x))) by {
                lemma_cons_contains(a[0], rest, x);
            }
            assert(!rest.contains(a[0]));
            assert forall|i: int, j: int| 0 <= i < j < seq_inter(a, b).len() implies (
            #[trigger] seq_inter(a, b)[i]) != (#[trigger] seq_inter(a, b)[j]) by {
                if i == 0 {
                    assert(seq_inter(a, b)[j] == rest[j - 1]);
                    assert(rest.contains(rest[j - 1]));
                } else {
                    assert(seq_inter(a, b)[i] == rest[i - 1]);
                    assert(seq_inter(a, b)[j] == rest[j - 1]);
                }
            }
        } else {
            assert forall|x: Seq<u8>| true implies (#[trigger] seq_inter(a, b).contains(x) <==> (
            a.contains(x) && b.contains(x))) by {
                if x == a[0] {
                    assert(!b.contains(x));
                }
            }
        }
    }
}

/// The difference holds exactly the members of `a` not in `b`, each
/// once.
pub proof fn lemma_seq_diff_props(a: Items, b: Items)
    requires
        elems_unique(a),
    ensures
        elems_unique(seq_diff(a, b)),
        forall|x: Seq<u8>|
            #[trigger] seq_diff(a, b).contains(x) <==> (a.contains(x) && !b.contains(x)),
    decreases a.len(),
{
    if a.len() > 0 {
        lemma_unique_head(a);
        lemma_seq_diff_props(a.drop_first(), b);
        let rest = seq_diff(a.drop_first(), b);
        assert forall|x: Seq<u8>| #[trigger] a.contains(x) implies (x == a[0]
            || a.drop_first().contains(x)) by {
            let i = choose|i: int| 0 <= i < a.len() && a[i] == x;
            if i > 0 {
                assert(a.drop_first()[i - 1] == x);
            }
        }
        assert(forall|x: Seq<u8>| #[trigger] a.drop_first().contains(x) ==> a.contains(x)) by {
            assert forall|x: Seq<u8>| #[trigger] a.drop_first().contains(x) implies a.contains(
                x,
            ) by {
                let i = choose|i: int| 0 <= i < a.drop_first().len() && a.drop_first()[i] == x;
                assert(a[i + 1] == x);
            }
        }
        assert(a.contains(a[0]));
        if !b.contains(a[0]) {
            assert forall|x: Seq<u8>| true implies (#[trigger] seq_diff(a, b).contains(x) <==> (
            a.contains(x) && !b.contains(x))) by {
                lemma_cons_contains(a[0], rest, x);
            }
            assert(!rest.contains(a[0]));
            assert forall|i: int, j: int| 0 <= i < j < seq_diff(a, b).len() implies (
            #[trigger] seq_diff(a, b)[i]) != (#[trigger] seq_diff(a, b)[j]) by {
                if i == 0 {
                    assert(seq_diff(a, b)[j] == rest[j - 1]);
                    assert(rest.contains(rest[j - 1]));
                } else {
                    assert(seq_diff(a, b)[i] == rest[i - 1]);
                    assert(seq_diff(a, b)[j] == rest[j - 1]);
                }
            }
        } else {
            assert forall|x: Seq<u8>| true implies (#[trigger] seq_diff(a, b).contains(x) <==> (
            a.contains(x) && !b.contains(x))) by {
                if x == a[0] {
                    assert(b.contains(x));
                }
            }
        }
    }
}

/// The union holds exactly the members of either side, each once.
pub proof fn lemma_seq_union_props(a: Items, b: Items)
    requires
        elems_unique(a),
        elems_unique(b),
    ensures
        elems_unique(seq_union(a, b)),
        forall|x: Seq<u8>|
            #[trigger] seq_union(a, b).contains(x) <==> (a.contains(x) || b.contains(x)),
{
    lemma_seq_diff_props(b, a);
    let d = seq_diff(b, a);
    let u = seq_union(a, b);
    assert forall|x: Seq<u8>| true implies (#[trigger] u.contains(x) <==> (a.contains(x)
        || b.contains(x))) by {
        if a.contains(x) {
            let i = choose|i: int| 0 <= i < a.len() && a[i] == x;
            assert(u[i] == x);
        }
        if d.contains(x) {
            let i = choose|i: int| 0 <= i < d.len() && d[i] == x;
            assert(u[a.len() + i] == x);
        }
        if u.contains(x) {
            let i = choose|i: int| 0 <= i < u.len() && u[i] == x;
            if i < a.len() {
                assert(a[i] == x);
            } else {
                assert(d[i - a.len()] == x);
            }
        }
    }
    assert forall|i: int, j: int| 0 <= i < j < u.len() implies (#[trigger] u[i]) != (
    #[trigger] u[j]) by {
        if i < a.len() && j >= a.len() {
            assert(u[i] == a[i]);
            assert(u[j] == d[j - a.len()]);
            assert(a.contains(a[i]));
            assert(d.contains(d[j - a.len()]));
        } else if i >= a.len() {
            assert(u[i] == d[i - a.len()]);
            assert(u[j] == d[j - a.len()]);
        } else {
            assert(u[i] == a[i]);
            assert(u[j] == a[j]);
        }
    }
}

/// `SADD key m...`: on an existing set the members join it (the key
/// keeps its expiry) and the count of genuinely new members is replied;
/// a fresh key gets the distinct members with no expiry.
pub open spec fn sadd_spec(m: StoreV, args: Seq<Seq<u8>>, now: u128) -> (RespV, StoreV) {
    if args.len() >= 2 {
        let k = args[0];
        match spec_get(m, k, now) {
            Some(v) => match v {
                ValueV::SetVal(es) => {
                    let es2 = set_add_all(es, args.skip(1));
                    (
                        RespV::Integer(int_sat(es2.len() - es.len())),
                        m.insert(k, (ValueV::SetVal(es2), m[k].1)),
                    )
                },
                _ => (err_type_v(), m),
            },
            None => {
                let es2 = set_add_all(Seq::empty(), args.skip(1));
                (
                    RespV::Integer(int_sat(es2.len() as int)),
                    m.insert(k, (ValueV::SetVal(es2), None)),
                )
            },
        }
    } else {
        (err_arg_num_v(), m)
    }
}

/// `SCARD key`: the member count; an absent key counts zero.
pub open spec fn scard_spec(m: StoreV, args: Seq<Seq<u8>>, now: u128) -> RespV {
    if args.len() == 1 {
        match spec_get(m, args[0], now) {
            Some(v) => match v {
                ValueV::SetVal(es) => RespV::Integer(int_sat(es.len() as int)),
                _ => err_type_v(),
            },
            None => RespV::Integer(0),
        }
    } else {
        err_arg_num_v()
    }
}

/// `SMEMBERS key`: the members; an absent key is the empty array.
pub open spec fn smembers_spec(m: StoreV, args: Seq<Seq<u8>>, now: u128) -> RespV {
    if args.len() == 1 {
        match spec_get(m, args[0], now) {
            Some(v) => match v {
                ValueV::SetVal(es) => frame_of(es),
                _ => err_type_v(),
            },
            None => frame_of(Seq::empty()),
        }
    } else {
        err_arg_num_v()
    }
}

/// `SREM key m...`: the members leave the set in place (the key keeps
/// its expiry) and the count of members that were present is replied; an
/// absent key counts zero.
pub open spec fn srem_spec(m: StoreV, args: Seq<Seq<u8>>, now: u128) -> (RespV, StoreV) {
    if args.len() >= 2 {
        match spec_get(m, args[0], now) {
            Some(v) => match v {
                ValueV::SetVal(es) => {
                    let rec = srem_all(es, args.skip(1));
                    (
                        RespV::Integer(int_sat(rec.0)),
                        m.insert(args[0], (ValueV::SetVal(rec.1), m[args[0]].1)),
                    )
                },
                _ => (err_type_v(), m),
            },
            None => (RespV::Integer(0), m),
        }
    } else {
        (err_arg_num_v(), m)
    }
}

/// `SISMEMBER key m`: one when the member is present, else zero.
pub open spec fn sismember_spec(m: StoreV, args: Seq<Seq<u8>>, now: u128) -> RespV {
    if args.len() == 2 {
        match spec_get(m, args[0], now) {
            Some(v) => match v {
                ValueV::SetVal(es) => RespV::Integer(
                    if es.contains(args[1]) {
                        1int
                    } else {
                        0int
                    },
                ),
                _ => err_type_v(),
            },
            None => RespV::Integer(0),
        }
    } else {
        err_arg_num_v()
    }
}

/// Folding the remaining keys into a running intersection: a missing
/// key empties the result at once, a non-set key is the type error.
pub open spec fn sinter_rest(m: StoreV, acc: Items, keys: Items, now: u128) -> RespV
    decreases keys.len(),
{
    if keys.len() == 0 {
        frame_of(acc)
    } else {
        match spec_get(m, keys[0], now) {
            Some(v) => match v {
                ValueV::SetVal(o) => sinter_rest(m, seq_inter(acc, o), keys.drop_first(), now),
                _ => err_type_v(),
            },
            None => frame_of(Seq::empty()),
        }
    }
}

/// `SINTER key key...`: the intersection of the named sets, a missing
/// first key counting as empty.
pub open spec fn sinter_spec(m: StoreV, args: Seq<Seq<u8>>, now: u128) -> RespV {
    if args.len() >= 2 {
        match spec_get(m, args[0], now) {
            Some(v) => match v {
                ValueV::SetVal(es) => sinter_rest(m, es, args.skip(1), now),
                _ => err_type_v(),
            },
            None => sinter_rest(m, Seq::empty(), args.skip(1), now),
        }
    } else {
        err_arg_num_v()
    }
}

/// Folding source keys into a stored intersection: a missing key makes
/// the result empty and stops, a non-set key is the type error.
pub open spec fn interstore_rest(m: StoreV, acc: Items, keys: Items, now: u128) -> Result<
    Items,
    (),
>
    decreases keys.len(),
{
    if keys.len() == 0 {
        Ok(acc)
    } else {
        match spec_get(m, keys[0], now) {
            Some(v) => match v {
                ValueV::SetVal(o) => interstore_rest(m, seq_inter(acc, o), keys.drop_first(), now),
                _ => Err(()),
            },
            None => Ok(Seq::empty()),
        }
    }
}

/// `SINTERSTORE dest key...`: the intersection of the sources replaces
/// `dest` unconditionally (no expiry) and its size is replied.
pub open spec fn sinterstore_spec(m: StoreV, args: Seq<Seq<u8>>, now: u128) -> (RespV, StoreV) {
    if args.len() >= 2 {
        let first = match spec_get(m, args[1], now) {
            Some(v) => match v {
                ValueV::SetVal(es) => Ok(es),
                _ => Err(()),
            },
            None => Ok(Seq::empty()),
        };
        match first {
            Ok(es) => match interstore_rest(m, es, args.skip(2), now) {
                Ok(s) => (
                    RespV::Integer(int_sat(s.len() as int)),
                    m.insert(args[0], (ValueV::SetVal(s), None)),
                ),
                Err(_) => (err_type_v(), m),
            },
            Err(_) => (err_type_v(), m),
        }
    } else {
        (err_arg_num_v(), m)
    }
}

/// Folding the remaining keys into a running union: a missing key adds
/// nothing, a non-set key is the type error.
pub open spec fn sunion_rest(m: StoreV, acc: Items, keys: Items, now: u128) -> Result<Items, ()>
    decreases keys.len(),
{
    if keys.len() == 0 {
        Ok(acc)
    } else {
        match spec_get(m, keys[0], now) {
            Some(v) => match v {
                ValueV::SetVal(o) => sunion_rest(m, seq_union(acc, o), keys.drop_first(), now),
                _ => Err(()),
            },
            None => sunion_rest(m, acc, keys.drop_first(), now),
        }
    }
}

/// `SUNION key key...`: the union of the named sets, missing keys
/// counting as empty.
pub open spec fn sunion_spec(m: StoreV, args: Seq<Seq<u8>>, now: u128) -> RespV {
    if args.len() >= 2 {
        let first = match spec_get(m, args[0], now) {
            Some(v) => match v {
                ValueV::SetVal(es) => Ok(es),
                _ => Err(()),
            },
            None => Ok(Seq::empty()),
        };
        match first {
            Ok(es) => match sunion_rest(m, es, args.skip(1), now) {
                Ok(s) => frame_of(s),
                Err(_) => err_type_v(),
            },
            Err(_) => err_type_v(),
        }
    } else {
        err_arg_num_v()
    }
}

/// `SUNIONSTORE dest key...`: the union of the sources replaces `dest`
/// unconditionally (no expiry) and its size is replied.
pub open spec fn sunionstore_spec(m: StoreV, args: Seq<Seq<u8>>, now: u128) -> (RespV, StoreV) {
    if args.len() >= 2 {
        let first = match spec_get(m, args[1], now) {
            Some(v) => match v {
                ValueV::SetVal(es) => Ok(es),
                _ => Err(()),
            },
            None => Ok(Seq::empty()),
        };
        match first {
            Ok(es) => match sunion_rest(m, es, args.skip(2), now) {
                Ok(s) => (
                    RespV::Integer(int_sat(s.len() as int)),
                    m.insert(args[0], (ValueV::SetVal(s), None)),
                ),
                Err(_) => (err_type_v(), m),
            },
            Err(_) => (err_type_v(), m),
        }
    } else {
        (err_arg_num_v(), m)
    }
}

/// The stored set under a key, a missing key the empty set, another
/// variant the type error.
pub open spec fn set_of(m: StoreV, k: Seq<u8>, now: u128) -> Result<Items, ()> {
    match spec_get(m, k, now) {
        Some(v) => match v {
            ValueV::SetVal(es) => Ok(es),
            _ => Err(()),
        },
        None => Ok(Seq::empty()),
    }
}

/// `SDIFF a b`: the members of `a` not in `b`.
pub open spec fn sdiff_spec(m: StoreV, args: Seq<Seq<u8>>, now: u128) -> RespV {
    if args.len() == 2 {
        match set_of(m, args[0], now) {
            Ok(s0) => match set_of(m, args[1], now) {
                Ok(s1) => frame_of(seq_diff(s0, s1)),
                Err(_) => err_type_v(),
            },
            Err(_) => err_type_v(),
        }
    } else {
        err_arg_num_v()
    }
}

/// `SDIFFSTORE dest a b`: the difference replaces `dest` unconditionally
/// (no expiry) and its size is replied.
pub open spec fn sdiffstore_spec(m: StoreV, args: Seq<Seq<u8>>, now: u128) -> (RespV, StoreV) {
    if args.len() == 3 {
        match set_of(m, args[1], now) {
            Ok(s0) => match set_of(m, args[2], now) {
                Ok(s1) => (
                    RespV::Integer(int_sat(seq_diff(s0, s1).len() as int)),
                    m.insert(args[0], (ValueV::SetVal(seq_diff(s0, s1)), None)),
                ),
                Err(_) => (err_type_v(), m),
            },
            Err(_) => (err_type_v(), m),
        }
    } else {
        (err_arg_num_v(), m)
    }
}

/// The stored set under `key`: absent key, set, and another variant
/// told apart.
fn read_set(db: &Database, key: &[u8], now: u128) -> (r: Option<Option<Vec<Vec<u8>>>>)
    requires
        db.wf(),
    ensures
        match r {
            None => spec_get(db@, key@, now) is None,
            Some(o) => match o {
                Some(es) => spec_get(db@, key@, now) == Some(ValueV::SetVal(views_of(es@)))
                    && elems_unique(views_of(es@)),
                None => spec_get(db@, key@, now) is Some && !(spec_get(db@, key@, now).unwrap()
                    is SetVal),
            },
        },
{
    match db.get_at(key, now) {
        Some(v) => match v {
            Value::SetVal(es) => Some(Some(clone_byte_vecs(es))),
            _ => Some(None),
        },
        None => None,
    }
}

/// The members of `a` also in `b`.
#[verifier::loop_isolation(false)]
fn inter_vec(a: &Vec<Vec<u8>>, b: &Vec<Vec<u8>>) -> (r: Vec<Vec<u8>>)
    ensures
        views_of(r@) == seq_inter(views_of(a@), views_of(b@)),
{
    let ghost av = views_of(a@);
    let ghost bv = views_of(b@);
    let mut out: Vec<Vec<u8>> = Vec::new();
    let n = a.len();
    let mut i: usize = 0;
    proof {
        assert(av.skip(0) =~= av);
        assert(views_of(out@) + seq_inter(av, bv) =~= seq_inter(av, bv));
    }
    while i < n
        invariant
            0 <= i <= n,
            n == a@.len(),
            seq_inter(av, bv) == views_of(out@) + seq_inter(av.skip(i as int), bv),
        decreases n - i,
    {
        proof {
            assert(av.skip(i as int)[0] == av[i as int]);
            assert(av.skip(i as int).drop_first() =~= av.skip(i + 1));
            assert(av[i as int] == a@[i as int]@);
        }
        if contains_bytes(b, a[i].as_slice()) {
            out.push(slice_to_vec(a[i].as_slice()));
            proof {
                assert(views_of(out@) =~= views_of(out@.drop_last()).push(av[i as int]));
                assert(views_of(out@.drop_last()) + (seq![av[i as int]] + seq_inter(
                    av.skip(i + 1),
                    bv,
                )) =~= views_of(out@) + seq_inter(av.skip(i + 1), bv));
            }
        }
        i = i + 1;
    }
    proof {
        assert(av.skip(n as int) =~= Seq::<Seq<u8>>::empty());
        assert(views_of(out@) + Seq::<Seq<u8>>::empty() =~= views_of(out@));
    }
    out
}

/// The members of `a` not in `b`.
#[verifier::loop_isolation(false)]
fn diff_vec(a: &Vec<Vec<u8>>, b: &Vec<Vec<u8>>) -> (r: Vec<Vec<u8>>)
    ensures
        views_of(r@) == seq_diff(views_of(a@), views_of(b@)),
{
    let ghost av = views_of(a@);
    let ghost bv = views_of(b@);
    let mut out: Vec<Vec<u8>> = Vec::new();
    let n = a.len();
    let mut i: usize = 0;
    proof {
        assert(av.skip(0) =~= av);
        assert(views_of(out@) + seq_diff(av, bv) =~= seq_diff(av, bv));
    }
    while i < n
        invariant
            0 <= i <= n,
            n == a@.len(),
            seq_diff(av, bv) == views_of(out@) + seq_diff(av.skip(i as int), bv),
        decreases n - i,
    {
        proof {
            assert(av.skip(i as int)[0] == av[i as int]);
            assert(av.skip(i as int).drop_first() =~= av.skip(i + 1));
            assert(av[i as int] == a@[i as int]@);
        }
        if !contains_bytes(b, a[i].as_slice()) {
            out.push(slice_to_vec(a[i].as_slice()));
            proof {
                assert(views_of(out@) =~= views_of(out@.drop_last()).push(av[i as int]));
                assert(views_of(out@.drop_last()) + (seq![av[i as int]] + seq_diff(
                    av.skip(i + 1),
                    bv,
                )) =~= views_of(out@) + seq_diff(av.skip(i + 1), bv));
            }
        }
        i = i + 1;
    }
    proof {
        assert(av.skip(n as int) =~= Seq::<Seq<u8>>::empty());
        assert(views_of(out@) + Seq::<Seq<u8>>::empty() =~= views_of(out@));
    }
    out
}

/// The members of `a`, then those of `b` not already in `a`.
#[verifier::loop_isolation(false)]
fn union_vec(a: &Vec<Vec<u8>>, b: &Vec<Vec<u8>>) -> (r: Vec<Vec<u8>>)
    ensures
        views_of(r@) == seq_union(views_of(a@), views_of(b@)),
{
    let mut out = clone_byte_vecs(a);
    let extra = diff_vec(b, a);
    let ghost before = views_of(out@);
    let ghost added = views_of(extra@);
    let n = extra.len();
    let mut i: usize = 0;
    while i < n
        invariant
            0 <= i <= n,
            n == extra@.len(),
            views_of(out@) == before + added.take(i as int),
        decreases n - i,
    {
        out.push(slice_to_vec(extra[i].as_slice()));
        proof {
            assert(added[i as int] == extra@[i as int]@);
            assert(views_of(out@) =~= views_of(out@.drop_last()).push(added[i as int]));
            assert(before + added.take(i + 1) =~= (before + added.take(i as int)).push(
                added[i as int],
            ));
        }
        i = i + 1;
    }
    proof {
        assert(added.take(n as int) =~= added);
        assert(views_of(out@) =~= seq_union(views_of(a@), views_of(b@)));
    }
    out
}

pub struct HandleSet;

impl HandleSet {
    #[verifier::loop_isolation(false)]
    pub fn handle_sadd(db: &mut Database, command: &Command, now: u128) -> (r: RespValue)
        requires
            old(db).wf(),
        ensures
            final(db).wf(),
            (resp_view(r), final(db)@) == sadd_spec(old(db)@, command.args_view(), now),
    {
        let args = &command.args;
        if args.len() < 2 {
            return err_arg_num();
        }
        let ghost tail = command.args_view().skip(1);
        match read_set(db, args[0].as_slice(), now) {
            Some(o) => match o {
                Some(es) => {
                    let ghost es0 = views_of(es@);
                    let old_len = es.len();
                    let mut nl = es;
                    let n = args.len();
                    let mut i: usize = 1;
                    proof {
                        assert(tail.skip(0) =~= tail);
                        lemma_set_add_all_wf(es0, tail);
                    }
                    while i < n
                        invariant
                            1 <= i <= n,
                            nl@.len() >= old_len,
                            elems_unique(views_of(nl@)),
                            set_add_all(es0, tail) == set_add_all(
                                views_of(nl@),
                                tail.skip(i - 1),
                            ),
                        decreases n - i,
                    {
                        proof {
                            assert(tail.skip(i - 1)[0] == tail[i - 1]);
                            assert(tail[i - 1] == command.args_view()[i as int]);
                            assert(tail.skip(i - 1).drop_first() =~= tail.skip(i as int));
                        }
                        let ghost pre = views_of(nl@);
                        if !contains_bytes(&nl, args[i].as_slice()) {
                            nl.push(slice_to_vec(args[i].as_slice()));
                            proof {
                                assert(views_of(nl@) =~= pre.push(tail[i - 1]));
                                assert(elems_unique(views_of(nl@))) by {
                                    assert forall|x: int, y: int|
                                        0 <= x < y < views_of(nl@).len() implies (
                                    #[trigger] views_of(nl@)[x]) != (#[trigger] views_of(
                                        nl@,
                                    )[y]) by {
                                        if y == pre.len() {
                                            assert(views_of(nl@)[x] == pre[x]);
                                            assert(pre.contains(pre[x]));
                                        } else {
                                            assert(views_of(nl@)[x] == pre[x]);
                                            assert(views_of(nl@)[y] == pre[y]);
                                        }
                                    }
                                }
                            }
                        }
                        i = i + 1;
                    }
                    proof {
                        assert(tail.skip(n - 1) =~= Seq::<Seq<u8>>::empty());
                    }
                    let added = nl.len() - old_len;
                    db.set_keep_ttl(args[0].as_slice(), Value::SetVal(nl));
                    count_reply(added)
                },
                None => err_type(),
            },
            None => {
                let mut nl: Vec<Vec<u8>> = Vec::new();
                let n = args.len();
                let mut i: usize = 1;
                proof {
                    assert(tail.skip(0) =~= tail);
                    assert(views_of(nl@) =~= Seq::<Seq<u8>>::empty());
                    lemma_set_add_all_wf(Seq::empty(), tail);
                }
                while i < n
                    invariant
                        1 <= i <= n,
                        elems_unique(views_of(nl@)),
                        set_add_all(Seq::empty(), tail) == set_add_all(
                            views_of(nl@),
                            tail.skip(i - 1),
                        ),
                    decreases n - i,
                {
                    proof {
                        assert(tail.skip(i - 1)[0] == tail[i - 1]);
                        assert(tail[i - 1] == command.args_view()[i as int]);
                        assert(tail.skip(i - 1).drop_first() =~= tail.skip(i as int));
                    }
                    let ghost pre = views_of(nl@);
                    if !contains_bytes(&nl, args[i].as_slice()) {
                        nl.push(slice_to_vec(args[i].as_slice()));
                        proof {
                            assert(views_of(nl@) =~= pre.push(tail[i - 1]));
                            assert(elems_unique(views_of(nl@))) by {
                                assert forall|x: int, y: int|
                                    0 <= x < y < views_of(nl@).len() implies (#[trigger] views_of(
                                    nl@,
                                )[x]) != (#[trigger] views_of(nl@)[y]) by {
                                    if y == pre.len() {
                                        assert(views_of(nl@)[x] == pre[x]);
                                        assert(pre.contains(pre[x]));
                                    } else {
                                        assert(views_of(nl@)[x] == pre[x]);
                                        assert(views_of(nl@)[y] == pre[y]);
                                    }
                                }
                            }
                        }
                    }
                    i = i + 1;
                }
                proof {
                    assert(tail.skip(n - 1) =~= Seq::<Seq<u8>>::empty());
                }
                let count = nl.len();
                let key = slice_to_vec(args[0].as_slice());
                db.set(key, Value::SetVal(nl));
                count_reply(count)
            },
        }
    }

    pub fn handle_scard(db: &Database, command: &Command, now: u128) -> (r: RespValue)
        requires
            db.wf(),
        ensures
            resp_view(r) == scard_spec(db@, command.args_view(), now),
    {
        let args = &command.args;
        if args.len() != 1 {
            return err_arg_num();
        }
        match db.get_at(args[0].as_slice(), now) {
            Some(v) => match v {
                Value::SetVal(es) => count_reply(es.len()),
                _ => err_type(),
            },
            None => RespValue::Integer(0),
        }
    }

    pub fn handle_smembers(db: &Database, command: &Command, now: u128) -> (r: RespValue)
        requires
            db.wf(),
        ensures
            resp_view(r) == smembers_spec(db@, command.args_view(), now),
    {
        let args = &command.args;
        if args.len() != 1 {
            return err_arg_num();
        }
        match db.get_at(args[0].as_slice(), now) {
            Some(v) => match v {
                Value::SetVal(es) => {
                    let out = clone_byte_vecs(es);
                    bulk_array(out)
                },
                _ => err_type(),
            },
            None => {
                let e: Vec<Vec<u8>> = Vec::new();
                proof {
                    assert(views_of(e@) =~= Seq::<Seq<u8>>::empty());
                }
                bulk_array(e)
            },
        }
    }

    #[verifier::loop_isolation(false)]
    pub fn handle_srem(db: &mut Database, command: &Command, now: u128) -> (r: RespValue)
        requires
            old(db).wf(),
        ensures
            final(db).wf(),
            (resp_view(r), final(db)@) == srem_spec(old(db)@, command.args_view(), now),
    {
        let args = &command.args;
        if args.len() < 2 {
            return err_arg_num();
        }
        match read_set(db, args[0].as_slice(), now) {
            None => RespValue::Integer(0),
            Some(o) => match o {
                None => err_type(),
                Some(mut es) => {
                    let ghost es0 = views_of(es@);
                    let ghost mems = command.args_view().skip(1);
                    let mut num: usize = 0;
                    let n = args.len();
                    let mut i: usize = 1;
                    proof {
                        assert(mems.skip(0) =~= mems);
                    }
                    while i < n
                        invariant
                            1 <= i <= n,
                            num <= i,
                            elems_unique(views_of(es@)),
                            srem_all(es0, mems).0 == num + srem_all(
                                views_of(es@),
                                mems.skip(i - 1),
                            ).0,
                            srem_all(es0, mems).1 == srem_all(
                                views_of(es@),
                                mems.skip(i - 1),
                            ).1,
                        decreases n - i,
                    {
                        let ghost pre = views_of(es@);
                        proof {
                            assert(mems[i - 1] == command.args_view()[i as int]);
                            assert(mems.skip(i - 1)[0] == mems[i - 1]);
                            assert(mems.skip(i - 1).drop_first() =~= mems.skip(i as int));
                            lemma_set_index(pre, mems[i - 1]);
                            lemma_set_remove_wf(pre, mems[i - 1]);
                        }
                        let j = find_member(&es, args[i].as_slice());
                        if j < es.len() {
                            es.remove(j);
                            proof {
                                assert(views_of(es@) =~= pre.remove(set_index(pre, mems[i - 1])));
                            }
                            num = num + 1;
                        }
                        i = i + 1;
                    }
                    proof {
                        assert(mems.skip(n - 1) =~= Seq::<Seq<u8>>::empty());
                    }
                    db.set_keep_ttl(args[0].as_slice(), Value::SetVal(es));
                    count_reply(num)
                },
            },
        }
    }

    pub fn handle_sismember(db: &Database, command: &Command, now: u128) -> (r: RespValue)
        requires
            db.wf(),
        ensures
            resp_view(r) == sismember_spec(db@, command.args_view(), now),
    {
        let args = &command.args;
        if args.len() != 2 {
            return err_arg_num();
        }
        match db.get_at(args[0].as_slice(), now) {
            Some(v) => match v {
                Value::SetVal(es) => {
                    if contains_bytes(es, args[1].as_slice()) {
                        RespValue::Integer(1)
                    } else {
                        RespValue::Integer(0)
                    }
                },
                _ => err_type(),
            },
            None => RespValue::Integer(0),
        }
    }

    #[verifier::loop_isolation(false)]
    pub fn handle_sinter(db: &Database, command: &Command, now: u128) -> (r: RespValue)
        requires
            db.wf(),
        ensures
            resp_view(r) == sinter_spec(db@, command.args_view(), now),
    {
        let args = &command.args;
        if args.len() < 2 {
            return err_arg_num();
        }
        let ghost keys = command.args_view();
        let mut acc: Vec<Vec<u8>> = match read_set(db, args[0].as_slice(), now) {
            Some(o) => match o {
                Some(es) => es,
                None => {
                    return err_type();
                },
            },
            None => Vec::new(),
        };
        proof {
            assert(sinter_spec(db@, keys, now) == sinter_rest(db@, views_of(acc@), keys.skip(1), now)) by {
                if spec_get(db@, keys[0], now) is None {
                    assert(views_of(acc@) =~= Seq::<Seq<u8>>::empty());
                }
            }
        }
        let n = args.len();
        let mut i: usize = 1;
        while i < n
            invariant
                1 <= i <= n,
                sinter_spec(db@, keys, now) == sinter_rest(
                    db@,
                    views_of(acc@),
                    keys.skip(i as int),
                    now,
                ),
            decreases n - i,
        {
            proof {
                assert(keys.skip(i as int)[0] == keys[i as int]);
                assert(keys.skip(i as int).drop_first() =~= keys.skip(i + 1));
            }
            match read_set(db, args[i].as_slice(), now) {
                Some(o) => match o {
                    Some(other) => {
                        acc = inter_vec(&acc, &other);
                    },
                    None => {
                        return err_type();
                    },
                },
                None => {
                    let e: Vec<Vec<u8>> = Vec::new();
                    proof {
                        assert(views_of(e@) =~= Seq::<Seq<u8>>::empty());
                    }
                    return bulk_array(e);
                },
            }
            i = i + 1;
        }
        proof {
            assert(keys.skip(n as int) =~= Seq::<Seq<u8>>::empty());
        }
        bulk_array(acc)
    }

    #[verifier::loop_isolation(false)]
    pub fn handle_sinterstore(db: &mut Database, command: &Command, now: u128) -> (r: RespValue)
        requires
            old(db).wf(),
        ensures
            final(db).wf(),
            (resp_view(r), final(db)@) == sinterstore_spec(old(db)@, command.args_view(), now),
    {
        let args = &command.args;
        if args.len() < 2 {
            return err_arg_num();
        }
        let ghost keys = command.args_view();
        let mut acc: Vec<Vec<u8>> = match read_set(db, args[1].as_slice(), now) {
            Some(o) => match o {
                Some(es) => es,
                None => {
                    return err_type();
                },
            },
            None => Vec::new(),
        };
        let ghost first: Items = views_of(acc@);
        proof {
            assert(elems_unique(first)) by {
                if spec_get(db@, keys[1], now) is None {
                    assert(first =~= Seq::<Seq<u8>>::empty());
                }
            }
            if spec_get(db@, keys[1], now) is None {
                assert(first =~= Seq::<Seq<u8>>::empty());
            }
            assert(keys.skip(2).skip(0) =~= keys.skip(2));
        }
        let n = args.len();
        let mut i: usize = 2;
        let mut emptied = false;
        while i < n && !emptied
            invariant
                2 <= i <= n,
                elems_unique(views_of(acc@)),
                !emptied ==> interstore_rest(db@, first, keys.skip(2), now) == interstore_rest(
                    db@,
                    views_of(acc@),
                    keys.skip(i as int),
                    now,
                ),
                emptied ==> interstore_rest(db@, first, keys.skip(2), now) == Ok::<Items, ()>(
                    views_of(acc@),
                ),
            decreases n - i,
        {
            proof {
                assert(keys.skip(i as int)[0] == keys[i as int]);
                assert(keys.skip(i as int).drop_first() =~= keys.skip(i + 1));
            }
            match read_set(db, args[i].as_slice(), now) {
                Some(o) => match o {
                    Some(other) => {
                        proof {
                            lemma_seq_inter_props(views_of(acc@), views_of(other@));
                        }
                        acc = inter_vec(&acc, &other);
                    },
                    None => {
                        return err_type();
                    },
                },
                None => {
                    acc = Vec::new();
                    emptied = true;
                    proof {
                        assert(views_of(acc@) =~= Seq::<Seq<u8>>::empty());
                    }
                },
            }
            i = i + 1;
        }
        proof {
            if !emptied {
                assert(keys.skip(n as int) =~= Seq::<Seq<u8>>::empty());
            }
        }
        let count = acc.len();
        let key = slice_to_vec(args[0].as_slice());
        db.set(key, Value::SetVal(acc));
        count_reply(count)
    }

    #[verifier::loop_isolation(false)]
    pub fn handle_sunion(db: &Database, command: &Command, now: u128) -> (r: RespValue)
        requires
            db.wf(),
        ensures
            resp_view(r) == sunion_spec(db@, command.args_view(), now),
    {
        let args = &command.args;
        if args.len() < 2 {
            return err_arg_num();
        }
        let ghost keys = command.args_view();
        let mut acc: Vec<Vec<u8>> = match read_set(db, args[0].as_slice(), now) {
            Some(o) => match o {
                Some(es) => es,
                None => {
                    return err_type();
                },
            },
            None => Vec::new(),
        };
        let ghost first: Items = views_of(acc@);
        proof {
            if spec_get(db@, keys[0], now) is None {
                assert(first =~= Seq::<Seq<u8>>::empty());
            }
            assert(keys.skip(1).skip(0) =~= keys.skip(1));
        }
        let n = args.len();
        let mut i: usize = 1;
        while i < n
            invariant
                1 <= i <= n,
                sunion_rest(db@, first, keys.skip(1), now) == sunion_rest(
                    db@,
                    views_of(acc@),
                    keys.skip(i as int),
                    now,
                ),
            decreases n - i,
        {
            proof {
                assert(keys.skip(i as int)[0] == keys[i as int]);
                assert(keys.skip(i as int).drop_first() =~= keys.skip(i + 1));
            }
            match read_set(db, args[i].as_slice(), now) {
                Some(o) => match o {
                    Some(other) => {
                        acc = union_vec(&acc, &other);
                    },
                    None => {
                        return err_type();
                    },
                },
                None => {},
            }
            i = i + 1;
        }
        proof {
            assert(keys.skip(n as int) =~= Seq::<Seq<u8>>::empty());
        }
        bulk_array(acc)
    }

    #[verifier::loop_isolation(false)]
    pub fn handle_sunionstore(db: &mut Database, command: &Command, now: u128) -> (r: RespValue)
        requires
            old(db).wf(),
        ensures
            final(db).wf(),
            (resp_view(r), final(db)@) == sunionstore_spec(old(db)@, command.args_view(), now),
    {
        let args = &command.args;
        if args.len() < 2 {
            return err_arg_num();
        }
        let ghost keys = command.args_view();
        let mut acc: Vec<Vec<u8>> = match read_set(db, args[1].as_slice(), now) {
            Some(o) => match o {
                Some(es) => es,
                None => {
                    return err_type();
                },
            },
            None => Vec::new(),
        };
        let ghost first: Items = views_of(acc@);
        proof {
            assert(elems_unique(first)) by {
                if spec_get(db@, keys[1], now) is None {
                    assert(first =~= Seq::<Seq<u8>>::empty());
                }
            }
            if spec_get(db@, keys[1], now) is None {
                assert(first =~= Seq::<Seq<u8>>::empty());
            }
            assert(keys.skip(2).skip(0) =~= keys.skip(2));
        }
        let n = args.len();
        let mut i: usize = 2;
        while i < n
            invariant
                2 <= i <= n,
                elems_unique(views_of(acc@)),
                sunion_rest(db@, first, keys.skip(2), now) == sunion_rest(
                    db@,
                    views_of(acc@),
                    keys.skip(i as int),
                    now,
                ),
            decreases n - i,
        {
            proof {
                assert(keys.skip(i as int)[0] == keys[i as int]);
                assert(keys.skip(i as int).drop_first() =~= keys.skip(i + 1));
            }
            match read_set(db, args[i].as_slice(), now) {
                Some(o) => match o {
                    Some(other) => {
                        proof {
                            lemma_seq_union_props(views_of(acc@), views_of(other@));
                        }
                        acc = union_vec(&acc, &other);
                    },
                    None => {
                        return err_type();
                    },
                },
                None => {},
            }
            i = i + 1;
        }
        proof {
            assert(keys.skip(n as int) =~= Seq::<Seq<u8>>::empty());
        }
        let count = acc.len();
        let key = slice_to_vec(args[0].as_slice());
        db.set(key, Value::SetVal(acc));
        count_reply(count)
    }

    pub fn handle_sdiff(db: &Database, command: &Command, now: u128) -> (r: RespValue)
        requires
            db.wf(),
        ensures
            resp_view(r) == sdiff_spec(db@, command.args_view(), now),
    {
        let args = &command.args;
        if args.len() != 2 {
            return err_arg_num();
        }
        let s0: Vec<Vec<u8>> = match read_set(db, args[0].as_slice(), now) {
            Some(o) => match o {
                Some(es) => es,
                None => {
                    return err_type();
                },
            },
            None => Vec::new(),
        };
        proof {
            if spec_get(db@, command.args_view()[0], now) is None {
                assert(views_of(s0@) =~= Seq::<Seq<u8>>::empty());
            }
        }
        let s1: Vec<Vec<u8>> = match read_set(db, args[1].as_slice(), now) {
            Some(o) => match o {
                Some(es) => es,
                None => {
                    return err_type();
                },
            },
            None => Vec::new(),
        };
        proof {
            if spec_get(db@, command.args_view()[1], now) is None {
                assert(views_of(s1@) =~= Seq::<Seq<u8>>::empty());
            }
        }
        let out = diff_vec(&s0, &s1);
        bulk_array(out)
    }

    pub fn handle_sdiffstore(db: &mut Database, command: &Command, now: u128) -> (r: RespValue)
        requires
            old(db).wf(),
        ensures
            final(db).wf(),
            (resp_view(r), final(db)@) == sdiffstore_spec(old(db)@, command.args_view(), now),
    {
        let args = &command.args;
        if args.len() != 3 {
            return err_arg_num();
        }
        let s0: Vec<Vec<u8>> = match read_set(db, args[1].as_slice(), now) {
            Some(o) => match o {
                Some(es) => es,
                None => {
                    return err_type();
                },
            },
            None => Vec::new(),
        };
        proof {
            assert(elems_unique(views_of(s0@))) by {
                if spec_get(db@, command.args_view()[1], now) is None {
                    assert(views_of(s0@) =~= Seq::<Seq<u8>>::empty());
                }
            }
            if spec_get(old(db)@, command.args_view()[1], now) is None {
                assert(views_of(s0@) =~= Seq::<Seq<u8>>::empty());
            }
        }
        let s1: Vec<Vec<u8>> = match read_set(db, args[2].as_slice(), now) {
            Some(o) => match o {
                Some(es) => es,
                None => {
                    return err_type();
                },
            },
            None => Vec::new(),
        };
        proof {
            if spec_get(old(db)@, command.args_view()[2], now) is None {
                assert(views_of(s1@) =~= Seq::<Seq<u8>>::empty());
            }
        }
        let out = diff_vec(&s0, &s1);
        proof {
            lemma_seq_diff_props(views_of(s0@), views_of(s1@));
        }
        let count = out.len();
        let key = slice_to_vec(args[0].as_slice());
        db.set(key, Value::SetVal(out));
        count_reply(count)
    }
}

/// Index of the first occurrence of `x`, or the length when absent.
#[verifier::loop_isolation(false)]
fn find_member(es: &Vec<Vec<u8>>, x: &[u8]) -> (r: usize)
    ensures
        r == set_index(views_of(es@), x@),
        r <= es@.len(),
{
    let ghost ev = views_of(es@);
    proof {
        lemma_set_index(ev, x@);
    }
    let n = es.len();
    let mut i: usize = 0;
    while i < n
        invariant
            0 <= i <= n,
            forall|j: int| 0 <= j < i ==> (#[trigger] ev[j]) != x@,
        decreases n - i,
    {
        if bytes_eq(es[i].as_slice(), x) {
            proof {
                assert(ev[i as int] == x@);
            }
            return i;
        }
        proof {
            assert(ev[i as int] == es@[i as int]@);
        }
        i = i + 1;
    }
    n
}

} // verus!
