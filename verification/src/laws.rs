//! Laws of the store and of the command layer, each proved against the
//! spec functions that the executable contracts use.

use vstd::prelude::*;

use crate::bytestr::dec_int;
use crate::command::{err_arg_num_v, err_type_v, ok_v};
use crate::handle_hash::{dict_from, dict_index, flat_pairs, hgetall_spec, hpairs, hset_spec};
use crate::handle_list::{
    adj_idx, lindex_spec, lpop_spec, lpush_spec, lrange_spec, rev_seq, rpop_spec, rpush_spec,
};
use crate::handle_set::{
    lemma_seq_inter_props, sadd_spec, scard_spec, seq_inter, set_add_all, set_insert, sinter_spec,
};
use crate::handle_string::{del_spec, get_spec, step_spec};
use crate::protocol::{frame_of, RespV};
use crate::storage::{
    elems_unique, entry_live, sat_add, spec_clean, spec_get, EntryV, StoreV, ValueV,
};

verus! {

/// A write with no expiry is immediately readable: after `set(k, v)`,
/// `get(k)` observes `v` at every instant.
pub proof fn lemma_set_then_get(m: StoreV, k: Seq<u8>, v: ValueV, now: u128)
    ensures
        spec_get(m.insert(k, (v, None)), k, now) == Some(v),
{
}

/// A write leaves every other key as it was.
pub proof fn lemma_set_other_keys(m: StoreV, k: Seq<u8>, e: EntryV, q: Seq<u8>, now: u128)
    requires
        q != k,
    ensures
        spec_get(m.insert(k, e), q, now) == spec_get(m, q, now),
{
}

/// A write with duration `d` against clock `now` is live at `now`; at
/// any instant past the stored deadline the key reads as absent and no
/// longer logically exists, while it remains physically present until a
/// sweep removes it.
pub proof fn lemma_duration_expiry(
    m: StoreV,
    k: Seq<u8>,
    v: ValueV,
    d: u128,
    now: u128,
    later: u128,
)
    requires
        later > sat_add(now, d),
    ensures
        ({
            let m2 = m.insert(k, (v, Some(sat_add(now, d))));
            &&& spec_get(m2, k, now) == Some(v)
            &&& spec_get(m2, k, later) is None
            &&& m2.dom().contains(k)
            &&& !spec_clean(m2, later).dom().contains(k)
            &&& spec_clean(m2, later).dom().subset_of(m2.dom())
        }),
{
    let m2 = m.insert(k, (v, Some(sat_add(now, d))));
    assert(entry_live(m2[k], now));
    assert(!entry_live(m2[k], later));
}

/// After a removal the key is physically gone: `exists_include_expired`
/// is false and a repeated removal finds nothing.
pub proof fn lemma_del_then_absent(m: StoreV, k: Seq<u8>)
    ensures
        !m.remove(k).dom().contains(k),
        m.remove(k).remove(k) == m.remove(k),
{
    assert(m.remove(k).remove(k) =~= m.remove(k));
}

/// `INCR` on an absent key yields one and stores the text `"1"`, which a
/// later `GET` returns; `DECR` on an absent key yields minus one.
pub proof fn lemma_step_fresh(m: StoreV, k: Seq<u8>, now: u128, now2: u128)
    requires
        spec_get(m, k, now) is None,
    ensures
        ({
            let up = step_spec(m, seq![k], now, true);
            let down = step_spec(m, seq![k], now, false);
            &&& up.0 == RespV::Integer(1)
            &&& get_spec(up.1, seq![k], now2) == RespV::BulkString(Some(dec_int(1)))
            &&& dec_int(1) == seq![49u8]
            &&& down.0 == RespV::Integer(-1)
            &&& get_spec(down.1, seq![k], now2) == RespV::BulkString(Some(dec_int(-1)))
            &&& dec_int(-1) == seq![45u8, 49u8]
        }),
{
    assert(seq![k][0] == k);
    assert(dec_int(1) =~= seq![49u8]);
    assert(dec_int(-1) =~= seq![45u8, 49u8]);
}

/// `LPUSH k a b` puts `b` at the head, so `LPOP k` returns `b`, whether
/// the key was absent or already held a list.
pub proof fn lemma_lpush_lpop(m: StoreV, k: Seq<u8>, a: Seq<u8>, b: Seq<u8>, now: u128)
    requires
        spec_get(m, k, now) is None || spec_get(m, k, now).unwrap() is List,
    ensures
        ({
            let m1 = lpush_spec(m, seq![k, a, b], now).1;
            lpop_spec(m1, seq![k], now).0 == RespV::BulkString(Some(b))
        }),
{
    let args = seq![k, a, b];
    assert(args[0] == k);
    assert(args.skip(1) =~= seq![a, b]);
    assert(rev_seq(seq![a, b]) =~= seq![b, a]);
    let m1 = lpush_spec(m, args, now).1;
    match spec_get(m, k, now) {
        Some(v) => {
            assert((rev_seq(seq![a, b]) + v->List_0)[0] == b);
            assert(entry_live(m[k], now));
        },
        None => {
            assert(rev_seq(seq![a, b])[0] == b);
        },
    }
    assert(seq![k][0] == k);
}

/// `RPUSH k a b` puts `b` at the tail, so `RPOP k` returns `b`.
pub proof fn lemma_rpush_rpop(m: StoreV, k: Seq<u8>, a: Seq<u8>, b: Seq<u8>, now: u128)
    requires
        spec_get(m, k, now) is None || spec_get(m, k, now).unwrap() is List,
    ensures
        ({
            let m1 = rpush_spec(m, seq![k, a, b], now).1;
            rpop_spec(m1, seq![k], now).0 == RespV::BulkString(Some(b))
        }),
{
    let args = seq![k, a, b];
    assert(args[0] == k);
    assert(args.skip(1) =~= seq![a, b]);
    let m1 = rpush_spec(m, args, now).1;
    match spec_get(m, k, now) {
        Some(v) => {
            assert((v->List_0 + seq![a, b]).last() == b);
            assert(entry_live(m[k], now));
            assert((v->List_0 + seq![a, b]).len() > 0);
        },
        None => {
            assert(seq![a, b].last() == b);
        },
    }
    assert(seq![k][0] == k);
}

/// `LRANGE k 0 -1` returns the whole stored list in order.
pub proof fn lemma_lrange_full(m: StoreV, k: Seq<u8>, now: u128)
    requires
        spec_get(m, k, now) is Some,
        spec_get(m, k, now).unwrap() is List,
    ensures
        lrange_spec(m, seq![k, seq![48u8], seq![45u8, 49u8]], now) == frame_of(
            spec_get(m, k, now).unwrap()->List_0,
        ),
{
    let zero: Seq<u8> = seq![48u8];
    let minus_one: Seq<u8> = seq![45u8, 49u8];
    let args = seq![k, zero, minus_one];
    assert(args[0] == k);
    assert(args[1] == zero);
    assert(args[2] == minus_one);
    assert(zero[0] == 48);
    lemma_digit_run_value(zero, 0);
    assert(crate::bytestr::spec_parse_i64(zero) == Some(0i64));
    assert(minus_one[0] == 45);
    assert(minus_one.drop_first() =~= seq![49u8]);
    lemma_digit_run_value(seq![49u8], 1);
    assert(crate::bytestr::spec_parse_i64(minus_one) == Some(-1i64));
    let l = spec_get(m, k, now).unwrap()->List_0;
    if l.len() == 0 {
        assert(lrange_spec(m, args, now) == frame_of(Seq::<Seq<u8>>::empty()));
        assert(Seq::<Seq<u8>>::empty() =~= l);
    } else {
        assert(adj_idx(0, l.len() as int) == 0);
        assert(adj_idx(-1, l.len() as int) == l.len() - 1);
        assert(l.subrange(0, l.len() as int) =~= l);
    }
}

/// A one-digit run reads as its digit.
proof fn lemma_digit_run_value(s: Seq<u8>, v: nat)
    requires
        s.len() == 1,
        s[0] == v + 48,
        v < 10,
    ensures
        crate::bytestr::all_digits(s),
        crate::bytestr::dec_val(s) == v,
{
    assert(s.drop_last() =~= Seq::<u8>::empty());
    assert(crate::bytestr::dec_val(s) == crate::bytestr::dec_val(Seq::<u8>::empty()) * 10
        + crate::bytestr::digit_val(s[0]));
}

/// A negative `LINDEX` index resolves from the tail: index `i < 0` on a
/// list of length `n` names element `n + i`.
pub proof fn lemma_lindex_negative(m: StoreV, k: Seq<u8>, t: Seq<u8>, now: u128)
    requires
        spec_get(m, k, now) is Some,
        spec_get(m, k, now).unwrap() is List,
        crate::bytestr::spec_parse_i64(t) is Some,
        crate::bytestr::spec_parse_i64(t).unwrap() < 0,
        0 <= crate::bytestr::spec_parse_i64(t).unwrap() + spec_get(m, k, now).unwrap()->List_0.len(),
    ensures
        ({
            let l = spec_get(m, k, now).unwrap()->List_0;
            let i = crate::bytestr::spec_parse_i64(t).unwrap() as int;
            lindex_spec(m, seq![k, t], now) == RespV::BulkString(Some(l[l.len() + i]))
        }),
{
    let args = seq![k, t];
    assert(args[0] == k);
    assert(args[1] == t);
}

/// `SADD k a b c` on a fresh key stores the distinct members: with three
/// distinct members, `SCARD k` answers three.
pub proof fn lemma_sadd_scard(
    m: StoreV,
    k: Seq<u8>,
    a: Seq<u8>,
    b: Seq<u8>,
    c: Seq<u8>,
    now: u128,
)
    requires
        spec_get(m, k, now) is None,
        a != b,
        a != c,
        b != c,
    ensures
        sadd_spec(m, seq![k, a, b, c], now).0 == RespV::Integer(3),
        scard_spec(sadd_spec(m, seq![k, a, b, c], now).1, seq![k], now) == RespV::Integer(3),
{
    let args = seq![k, a, b, c];
    assert(args[0] == k);
    assert(args.skip(1) =~= seq![a, b, c]);
    let e: Seq<Seq<u8>> = Seq::empty();
    assert(!e.contains(a));
    let s1 = set_insert(e, a);
    assert(s1 =~= seq![a]);
    assert(!s1.contains(b)) by {
        if s1.contains(b) {
            let i = choose|i: int| 0 <= i < s1.len() && s1[i] == b;
            assert(s1[i] == a);
        }
    }
    let s2 = set_insert(s1, b);
    assert(s2 =~= seq![a, b]);
    assert(!s2.contains(c)) by {
        if s2.contains(c) {
            let i = choose|i: int| 0 <= i < s2.len() && s2[i] == c;
        }
    }
    let s3 = set_insert(s2, c);
    assert(s3 =~= seq![a, b, c]);
    assert(seq![a, b, c][0] == a);
    assert(seq![a, b, c].drop_first() =~= seq![b, c]);
    assert(seq![b, c][0] == b);
    assert(seq![b, c].drop_first() =~= seq![c]);
    assert(seq![c][0] == c);
    assert(seq![c].drop_first() =~= Seq::<Seq<u8>>::empty());
    assert(set_add_all(e, seq![a, b, c]) == set_add_all(s1, seq![b, c]));
    assert(set_add_all(s1, seq![b, c]) == set_add_all(s2, seq![c]));
    assert(set_add_all(s2, seq![c]) == set_add_all(s3, Seq::empty()));
    assert(set_add_all(s3, Seq::empty()) == s3);
    assert(seq![k][0] == k);
}

/// `SINTER k1 k2` returns the set intersection of the stored sets, and
/// is commutative up to member order.
pub proof fn lemma_sinter_two(m: StoreV, k1: Seq<u8>, k2: Seq<u8>, now: u128)
    requires
        spec_get(m, k1, now) is Some,
        spec_get(m, k1, now).unwrap() is SetVal,
        elems_unique(spec_get(m, k1, now).unwrap()->SetVal_0),
        spec_get(m, k2, now) is Some,
        spec_get(m, k2, now).unwrap() is SetVal,
        elems_unique(spec_get(m, k2, now).unwrap()->SetVal_0),
    ensures
        ({
            let s1 = spec_get(m, k1, now).unwrap()->SetVal_0;
            let s2 = spec_get(m, k2, now).unwrap()->SetVal_0;
            &&& sinter_spec(m, seq![k1, k2], now) == frame_of(seq_inter(s1, s2))
            &&& sinter_spec(m, seq![k2, k1], now) == frame_of(seq_inter(s2, s1))
            &&& forall|x: Seq<u8>|
                #[trigger] seq_inter(s1, s2).contains(x) <==> (s1.contains(x) && s2.contains(x))
            &&& forall|x: Seq<u8>|
                seq_inter(s1, s2).contains(x) <==> #[trigger] seq_inter(s2, s1).contains(x)
        }),
{
    let s1 = spec_get(m, k1, now).unwrap()->SetVal_0;
    let s2 = spec_get(m, k2, now).unwrap()->SetVal_0;
    lemma_seq_inter_props(s1, s2);
    lemma_seq_inter_props(s2, s1);
    let a12 = seq![k1, k2];
    assert(a12[0] == k1);
    assert(a12.skip(1) =~= seq![k2]);
    assert(seq![k2][0] == k2);
    assert(seq![k2].drop_first() =~= Seq::<Seq<u8>>::empty());
    assert(sinter_spec(m, a12, now) == crate::handle_set::sinter_rest(m, s1, seq![k2], now));
    assert(crate::handle_set::sinter_rest(m, s1, seq![k2], now)
        == crate::handle_set::sinter_rest(m, seq_inter(s1, s2), Seq::empty(), now));
    assert(crate::handle_set::sinter_rest(m, seq_inter(s1, s2), Seq::empty(), now) == frame_of(
        seq_inter(s1, s2),
    ));
    let a21 = seq![k2, k1];
    assert(a21[0] == k2);
    assert(a21.skip(1) =~= seq![k1]);
    assert(seq![k1][0] == k1);
    assert(seq![k1].drop_first() =~= Seq::<Seq<u8>>::empty());
    assert(sinter_spec(m, a21, now) == crate::handle_set::sinter_rest(m, s2, seq![k1], now));
    assert(crate::handle_set::sinter_rest(m, s2, seq![k1], now)
        == crate::handle_set::sinter_rest(m, seq_inter(s2, s1), Seq::empty(), now));
    assert(crate::handle_set::sinter_rest(m, seq_inter(s2, s1), Seq::empty(), now) == frame_of(
        seq_inter(s2, s1),
    ));
}

/// `SADD` against a key holding a plain string is the type error and
/// changes nothing.
pub proof fn lemma_sadd_wrongtype(m: StoreV, args: Seq<Seq<u8>>, now: u128)
    requires
        args.len() >= 2,
        spec_get(m, args[0], now) is Some,
        spec_get(m, args[0], now).unwrap() is Str,
    ensures
        sadd_spec(m, args, now) == (err_type_v(), m),
{
}

/// `HSET k f1 v1 f2 v2` stores exactly the two pairs, and `HGETALL k`
/// returns both (here in insertion order).
pub proof fn lemma_hset_hgetall(
    m: StoreV,
    k: Seq<u8>,
    f1: Seq<u8>,
    v1: Seq<u8>,
    f2: Seq<u8>,
    v2: Seq<u8>,
    now: u128,
    now2: u128,
)
    requires
        f1 != f2,
        spec_get(m, k, now) is None || spec_get(m, k, now).unwrap() is Hash,
    ensures
        ({
            let m1 = hset_spec(m, seq![k, f1, v1, f2, v2], now).1;
            hgetall_spec(m1, seq![k], now2) == frame_of(seq![f1, v1, f2, v2])
        }),
{
    let args = seq![k, f1, v1, f2, v2];
    assert(args[0] == k);
    let pairs = hpairs(args);
    assert(pairs.len() == 2);
    assert(pairs[0] == (f1, v1));
    assert(pairs[1] == (f2, v2));
    let e: Seq<(Seq<u8>, Seq<u8>)> = Seq::empty();
    let d1 = crate::handle_hash::dict_insert(e, f1, v1);
    assert(dict_index(e, f1) == 0);
    assert(d1 =~= seq![(f1, v1)]);
    assert(dict_index(d1, f2) == 1) by {
        assert(d1[0].0 == f1);
        assert(d1.drop_first() =~= e);
        assert(dict_index(e, f2) == 0);
    }
    let d2 = crate::handle_hash::dict_insert(d1, f2, v2);
    assert(d2 =~= seq![(f1, v1), (f2, v2)]);
    assert(pairs.drop_first() =~= seq![(f2, v2)]);
    assert(seq![(f2, v2)][0] == (f2, v2));
    assert(seq![(f2, v2)].drop_first() =~= e);
    assert(dict_from(e, pairs) == dict_from(d1, seq![(f2, v2)]));
    assert(dict_from(d1, seq![(f2, v2)]) == dict_from(d2, e));
    assert(dict_from(d2, e) == d2);
    let m1 = hset_spec(m, args, now).1;
    assert(seq![k][0] == k);
    assert(hgetall_spec(m1, seq![k], now2) == frame_of(flat_pairs(d2)));
    assert(flat_pairs(d2) =~= seq![f1, v1, f2, v2]);
}

/// A repeated `HSET` replaces the hash entirely: what is stored under
/// the key afterwards is a function of the new pairs alone.
pub proof fn lemma_hset_replaces(m1: StoreV, m2: StoreV, args: Seq<Seq<u8>>, now: u128)
    requires
        args.len() % 2 == 1 && args.len() != 1,
        spec_get(m1, args[0], now) is None || spec_get(m1, args[0], now).unwrap() is Hash,
        spec_get(m2, args[0], now) is None || spec_get(m2, args[0], now).unwrap() is Hash,
    ensures
        hset_spec(m1, args, now).1[args[0]] == hset_spec(m2, args, now).1[args[0]],
{
}

/// `DEL`'s arity split: no key is the arity error, one key a plain
/// acknowledgement, several keys an integer count.
pub proof fn lemma_del_arity(m: StoreV, args: Seq<Seq<u8>>)
    ensures
        args.len() == 0 ==> del_spec(m, args).0 == err_arg_num_v(),
        args.len() == 1 ==> del_spec(m, args).0 == ok_v(),
        args.len() >= 2 ==> del_spec(m, args).0 is Integer,
{
}

} // verus!
