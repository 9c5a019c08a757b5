//! The storage engine: a single mapping from byte-string key to a value
//! and an optional absolute expiration instant (milliseconds since epoch).
//!
//! Expiration is lazy: a read-path operation treats an entry whose instant
//! lies in the past as absent, while the entry may physically remain until
//! [`Database::clean_expired`] or an overwrite reclaims it. The clocked
//! operations (`get`, `exists_now`, `set_with_duration`, `clean_expired`)
//! read the wall clock once and defer to an `_at` variant that takes the
//! instant as an argument; the `_at` variants carry the exact contracts.

use vstd::prelude::*;

use crate::bytestr::{bytes_eq, pair_views, views_of};

verus! {

/// One stored value: a byte string, a list, a hash of field/value pairs,
/// or a set of unique members.
///
/// A hash is represented as a vector of pairs with pairwise-distinct
/// fields, a set as a vector of pairwise-distinct members; both in
/// insertion order.
#[derive(Debug, Clone, PartialEq, Eq)]
pub enum Value {
    Str(Vec<u8>),
    List(Vec<Vec<u8>>),
    Hash(Vec<(Vec<u8>, Vec<u8>)>),
    SetVal(Vec<Vec<u8>>),
}

/// The mathematical shape of a [`Value`]: every byte string a `Seq<u8>`.
pub enum ValueV {
    Str(Seq<u8>),
    List(Seq<Seq<u8>>),
    Hash(Seq<(Seq<u8>, Seq<u8>)>),
    SetVal(Seq<Seq<u8>>),
}

/// Pairwise-distinct fields.
pub open spec fn fields_unique(ps: Seq<(Seq<u8>, Seq<u8>)>) -> bool {
    forall|i: int, j: int| 0 <= i < j < ps.len() ==> (#[trigger] ps[i]).0 != (#[trigger] ps[j]).0
}

/// Pairwise-distinct members.
pub open spec fn elems_unique(es: Seq<Seq<u8>>) -> bool {
    forall|i: int, j: int| 0 <= i < j < es.len() ==> (#[trigger] es[i]) != (#[trigger] es[j])
}

impl ValueV {
    /// Hashes have pairwise-distinct fields, sets pairwise-distinct members.
    pub open spec fn wf(self) -> bool {
        match self {
            ValueV::Str(_) => true,
            ValueV::List(_) => true,
            ValueV::Hash(ps) => fields_unique(ps),
            ValueV::SetVal(es) => elems_unique(es),
        }
    }
}

impl View for Value {
    type V = ValueV;

    open spec fn view(&self) -> ValueV {
        match self {
            Value::Str(s) => ValueV::Str(s@),
            Value::List(l) => ValueV::List(views_of(l@)),
            Value::Hash(ps) => ValueV::Hash(pair_views(ps@)),
            Value::SetVal(es) => ValueV::SetVal(views_of(es@)),
        }
    }
}

/// Byte strings joined by single spaces.
pub open spec fn join_space(items: Seq<Seq<u8>>) -> Seq<u8>
    decreases items.len(),
{
    if items.len() == 0 {
        Seq::empty()
    } else if items.len() == 1 {
        items[0]
    } else {
        items[0] + seq![32u8] + join_space(items.drop_first())
    }
}

/// Appending one more string appends a space and the string.
proof fn lemma_join_space_push(items: Seq<Seq<u8>>, x: Seq<u8>)
    requires
        items.len() >= 1,
    ensures
        join_space(items.push(x)) == join_space(items) + seq![32u8] + x,
    decreases items.len(),
{
    let ext = items.push(x);
    if items.len() == 1 {
        assert(ext[0] == items[0]);
        assert(ext.drop_first() =~= seq![x]);
        assert(join_space(seq![x]) == x);
    } else {
        assert(ext[0] == items[0]);
        assert(ext.drop_first() =~= items.drop_first().push(x));
        lemma_join_space_push(items.drop_first(), x);
        assert(items[0] + seq![32u8] + (join_space(items.drop_first()) + seq![32u8] + x) =~= (
        items[0] + seq![32u8] + join_space(items.drop_first())) + seq![32u8] + x);
    }
}

/// Pairs rendered as `field:value,` one after the other.
pub open spec fn pairs_text(ps: Seq<(Seq<u8>, Seq<u8>)>) -> Seq<u8>
    decreases ps.len(),
{
    if ps.len() == 0 {
        Seq::empty()
    } else {
        ps[0].0 + seq![58u8] + ps[0].1 + seq![44u8] + pairs_text(ps.drop_first())
    }
}

/// Appending one more pair appends its rendering.
proof fn lemma_pairs_text_push(ps: Seq<(Seq<u8>, Seq<u8>)>, p: (Seq<u8>, Seq<u8>))
    ensures
        pairs_text(ps.push(p)) == pairs_text(ps) + (p.0 + seq![58u8] + p.1 + seq![44u8]),
    decreases ps.len(),
{
    let ext = ps.push(p);
    let piece = p.0 + seq![58u8] + p.1 + seq![44u8];
    if ps.len() == 0 {
        assert(ext[0] == p);
        assert(ext.drop_first() =~= Seq::<(Seq<u8>, Seq<u8>)>::empty());
        assert(pairs_text(ext) == p.0 + seq![58u8] + p.1 + seq![44u8] + pairs_text(
            Seq::<(Seq<u8>, Seq<u8>)>::empty(),
        ));
        assert(p.0 + seq![58u8] + p.1 + seq![44u8] + Seq::<u8>::empty() =~= piece);
        assert(Seq::<u8>::empty() + piece =~= piece);
    } else {
        assert(ext[0] == ps[0]);
        assert(ext.drop_first() =~= ps.drop_first().push(p));
        lemma_pairs_text_push(ps.drop_first(), p);
        let head = ps[0].0 + seq![58u8] + ps[0].1 + seq![44u8];
        assert(head + (pairs_text(ps.drop_first()) + piece) =~= (head + pairs_text(
            ps.drop_first(),
        )) + piece);
    }
}

/// A plain-text rendering of a value: a string as itself, list and set
/// members joined by spaces, hash pairs as `field:value,` runs.
pub open spec fn value_text(v: ValueV) -> Seq<u8> {
    match v {
        ValueV::Str(s) => s,
        ValueV::List(l) => join_space(l),
        ValueV::Hash(ps) => pairs_text(ps),
        ValueV::SetVal(es) => join_space(es),
    }
}

impl Value {
    /// Renders the value as plain text.
    #[verifier::loop_isolation(false)]
    pub fn to_bytes(&self) -> (r: Vec<u8>)
        ensures
            r@ == value_text(self@),
    {
        match self {
            Value::Str(s) => vstd::slice::slice_to_vec(s.as_slice()),
            Value::List(l) => Self::join_items(l),
            Value::SetVal(es) => Self::join_items(es),
            Value::Hash(ps) => {
                let ghost pv = pair_views(ps@);
                let mut out: Vec<u8> = Vec::new();
                let n = ps.len();
                let mut i: usize = 0;
                while i < n
                    invariant
                        0 <= i <= n,
                        out@ == pairs_text(pv.take(i as int)),
                    decreases n - i,
                {
                    let p = &ps[i];
                    crate::bytestr::append_bytes(&mut out, p.0.as_slice());
                    out.push(58);
                    crate::bytestr::append_bytes(&mut out, p.1.as_slice());
                    out.push(44);
                    proof {
                        assert(pv[i as int] == (ps@[i as int].0@, ps@[i as int].1@));
                        assert(pv.take(i + 1) =~= pv.take(i as int).push(pv[i as int]));
                        lemma_pairs_text_push(pv.take(i as int), pv[i as int]);
                        assert(out@ =~= pairs_text(pv.take(i as int)) + (pv[i as int].0
                            + seq![58u8] + pv[i as int].1 + seq![44u8]));
                    }
                    i = i + 1;
                }
                proof {
                    assert(pv.take(n as int) =~= pv);
                }
                out
            },
        }
    }

    /// Joins byte strings with single spaces.
    #[verifier::loop_isolation(false)]
    fn join_items(l: &Vec<Vec<u8>>) -> (r: Vec<u8>)
        ensures
            r@ == join_space(views_of(l@)),
    {
        let ghost lv = views_of(l@);
        let mut out: Vec<u8> = Vec::new();
        let n = l.len();
        if n == 0 {
            proof {
                assert(lv.len() == 0);
            }
            return out;
        }
        crate::bytestr::append_bytes(&mut out, l[0].as_slice());
        proof {
            assert(lv.take(1) =~= seq![lv[0]]);
            assert(join_space(lv.take(1)) == lv[0]);
            assert(lv[0] == l@[0]@);
        }
        let mut i: usize = 1;
        while i < n
            invariant
                1 <= i <= n,
                out@ == join_space(lv.take(i as int)),
            decreases n - i,
        {
            out.push(32);
            crate::bytestr::append_bytes(&mut out, l[i].as_slice());
            proof {
                assert(lv[i as int] == l@[i as int]@);
                assert(lv.take(i + 1) =~= lv.take(i as int).push(lv[i as int]));
                lemma_join_space_push(lv.take(i as int), lv[i as int]);
                assert(out@ =~= join_space(lv.take(i as int)) + seq![32u8] + lv[i as int]);
            }
            i = i + 1;
        }
        proof {
            assert(lv.take(n as int) =~= lv);
        }
        out
    }
}

/// An entry as the contracts speak of it: the value and the optional
/// absolute expiration instant in milliseconds.
pub type EntryV = (ValueV, Option<u128>);

/// The abstract state of the store.
pub type StoreV = Map<Seq<u8>, EntryV>;

/// An entry is live at `now` if it never expires or its instant has not
/// yet passed (an entry expiring exactly at `now` is still live).
pub open spec fn entry_live(e: EntryV, now: u128) -> bool {
    match e.1 {
        None => true,
        Some(t) => now <= t,
    }
}

/// What a read-path lookup observes at instant `now`: the value if the
/// key is present and live, absence otherwise.
pub open spec fn spec_get(m: StoreV, k: Seq<u8>, now: u128) -> Option<ValueV> {
    if m.dom().contains(k) && entry_live(m[k], now) {
        Some(m[k].0)
    } else {
        None
    }
}

/// The store after a sweep at instant `now`: exactly the live entries.
pub open spec fn spec_clean(m: StoreV, now: u128) -> StoreV {
    Map::new(|k: Seq<u8>| m.dom().contains(k) && entry_live(m[k], now), |k: Seq<u8>| m[k])
}

type RowV = (Seq<u8>, ValueV, Option<u128>);

/// First entry (value, expiry) whose key equals `k`, scanning left to right.
pub open spec fn find_row(rows: Seq<RowV>, k: Seq<u8>) -> Option<EntryV>
    decreases rows.len(),
{
    if rows.len() == 0 {
        None
    } else if rows[0].0 == k {
        Some((rows[0].1, rows[0].2))
    } else {
        find_row(rows.drop_first(), k)
    }
}

/// Pairwise-distinct keys.
pub open spec fn keys_unique(rows: Seq<RowV>) -> bool {
    forall|i: int, j: int| 0 <= i < j < rows.len() ==> (#[trigger] rows[i]).0 != (#[trigger] rows[j]).0
}

/// If some row holds key `k`, the scan finds the entry of the first one.
proof fn lemma_find_at(rows: Seq<RowV>, i: int)
    requires
        keys_unique(rows),
        0 <= i < rows.len(),
    ensures
        find_row(rows, rows[i].0) == Some((rows[i].1, rows[i].2)),
    decreases rows.len(),
{
    if i > 0 {
        assert(rows[0].0 != rows[i].0);
        assert(rows.drop_first()[i - 1] == rows[i]);
        lemma_find_at(rows.drop_first(), i - 1);
    }
}

/// If no row holds key `k`, the scan finds nothing.
proof fn lemma_find_absent(rows: Seq<RowV>, k: Seq<u8>)
    requires
        forall|j: int| 0 <= j < rows.len() ==> (#[trigger] rows[j]).0 != k,
    ensures
        find_row(rows, k) is None,
    decreases rows.len(),
{
    if rows.len() > 0 {
        assert(forall|j: int|
            0 <= j < rows.drop_first().len() ==> (#[trigger] rows.drop_first()[j]).0 != k);
        lemma_find_absent(rows.drop_first(), k);
    }
}

/// Replacing the row at `i` by one with the same key changes the lookup
/// of that key alone.
proof fn lemma_find_update(rows: Seq<RowV>, i: int, nr: RowV, q: Seq<u8>)
    requires
        keys_unique(rows),
        0 <= i < rows.len(),
        nr.0 == rows[i].0,
    ensures
        q == nr.0 ==> find_row(rows.update(i, nr), q) == Some((nr.1, nr.2)),
        q != nr.0 ==> find_row(rows.update(i, nr), q) == find_row(rows, q),
    decreases rows.len(),
{
    let rows2 = rows.update(i, nr);
    if i == 0 {
        if q != nr.0 {
            assert(rows2.drop_first() =~= rows.drop_first());
        }
    } else {
        assert(rows2[0] == rows[0]);
        if rows[0].0 != q {
            assert(rows2.drop_first() =~= rows.drop_first().update(i - 1, nr));
            assert(rows.drop_first()[i - 1] == rows[i]);
            lemma_find_update(rows.drop_first(), i - 1, nr, q);
        }
    }
}

/// Appending a row with a fresh key adds exactly that key's lookup.
proof fn lemma_find_push(rows: Seq<RowV>, nr: RowV, q: Seq<u8>)
    ensures
        find_row(rows.push(nr), q) == (if find_row(rows, q) is Some {
            find_row(rows, q)
        } else if nr.0 == q {
            Some((nr.1, nr.2))
        } else {
            None::<EntryV>
        }),
    decreases rows.len(),
{
    let rows2 = rows.push(nr);
    if rows.len() == 0 {
        assert(rows2[0] == nr);
        assert(find_row(rows, q) is None);
        if nr.0 != q {
            assert(rows2.drop_first() =~= Seq::<RowV>::empty());
            assert(find_row(rows2, q) == find_row(rows2.drop_first(), q));
            assert(find_row(rows2, q) is None);
        } else {
            assert(find_row(rows2, q) == Some((nr.1, nr.2)));
        }
    } else {
        assert(rows2[0] == rows[0]);
        if rows[0].0 == q {
            assert(find_row(rows2, q) == Some((rows2[0].1, rows2[0].2)));
            assert(find_row(rows, q) == Some((rows[0].1, rows[0].2)));
        } else {
            assert(rows2.drop_first() =~= rows.drop_first().push(nr));
            lemma_find_push(rows.drop_first(), nr, q);
            assert(find_row(rows2, q) == find_row(rows.drop_first().push(nr), q));
            assert(find_row(rows, q) == find_row(rows.drop_first(), q));
        }
    }
}

/// Removing the row at `i` removes exactly that key's lookup.
proof fn lemma_find_remove(rows: Seq<RowV>, i: int, q: Seq<u8>)
    requires
        keys_unique(rows),
        0 <= i < rows.len(),
    ensures
        q == rows[i].0 ==> find_row(rows.remove(i), q) is None,
        q != rows[i].0 ==> find_row(rows.remove(i), q) == find_row(rows, q),
    decreases rows.len(),
{
    let rows2 = rows.remove(i);
    if i == 0 {
        assert(rows2 =~= rows.drop_first());
        if q == rows[0].0 {
            assert(forall|j: int|
                0 <= j < rows.drop_first().len() ==> (#[trigger] rows.drop_first()[j]).0 != q);
            lemma_find_absent(rows.drop_first(), q);
        }
    } else {
        assert(rows2[0] == rows[0]);
        if rows[0].0 != q {
            assert(rows2.drop_first() =~= rows.drop_first().remove(i - 1));
            assert(rows.drop_first()[i - 1] == rows[i]);
            lemma_find_remove(rows.drop_first(), i - 1, q);
        } else {
            assert(q != rows[i].0);
        }
    }
}

/// The database: a mapping from key to entry, with unique keys, behind
/// which every entry's value is well-formed.
#[derive(Debug)]
pub struct Database {
    data: Vec<(Vec<u8>, Value, Option<u128>)>,
}

/// Representation rows abstracted to sequences.
spec fn rows_of(data: Seq<(Vec<u8>, Value, Option<u128>)>) -> Seq<RowV> {
    data.map_values(|r: (Vec<u8>, Value, Option<u128>)| (r.0@, r.1@, r.2))
}

impl Database {
    /// The representation rows, abstracted to sequences.
    pub closed spec fn rows(self) -> Seq<RowV> {
        rows_of(self.data@)
    }

    /// Representation invariant: unique keys, well-formed values.
    pub closed spec fn wf(self) -> bool {
        &&& keys_unique(self.rows())
        &&& forall|i: int| 0 <= i < self.rows().len() ==> (#[trigger] self.rows()[i]).1.wf()
    }

    pub fn new() -> (r: Self)
        ensures
            r.wf(),
            r@ == Map::<Seq<u8>, EntryV>::empty(),
    {
        let r = Self { data: Vec::new() };
        proof {
            assert(r@ =~= Map::<Seq<u8>, EntryV>::empty());
        }
        r
    }

    /// Index of the row holding `key`, if any.
    fn find_index(&self, key: &[u8]) -> (r: Option<usize>)
        ensures
            match r {
                Some(i) => 0 <= i < self.rows().len() && self.rows()[i as int].0 == key@,
                None => forall|j: int|
                    0 <= j < self.rows().len() ==> (#[trigger] self.rows()[j]).0 != key@,
            },
    {
        let n = self.data.len();
        for i in 0..n
            invariant
                n == self.data.len(),
                forall|j: int| 0 <= j < i ==> (#[trigger] self.rows()[j]).0 != key@,
        {
            assert(self.rows()[i as int].0 == self.data@[i as int].0@);
            if bytes_eq(self.data[i].0.as_slice(), key) {
                return Some(i);
            }
        }
        None
    }
}

impl View for Database {
    type V = StoreV;

    closed spec fn view(&self) -> StoreV {
        Map::new(
            |k: Seq<u8>| find_row(self.rows(), k) is Some,
            |k: Seq<u8>| find_row(self.rows(), k).unwrap(),
        )
    }
}

/// Milliseconds since the Unix epoch, read from the wall clock.
///
/// Relies on `std::time::SystemTime::now`; a clock standing before the
/// epoch reads as zero. Nothing can be promised of the instant returned.
#[verifier::external_body]
pub(crate) fn now_millis() -> u128 {
    match std::time::SystemTime::now().duration_since(std::time::UNIX_EPOCH) {
        Ok(d) => d.as_millis(),
        Err(_) => 0,
    }
}

/// `a + b`, capped at the largest representable instant.
pub open spec fn sat_add(a: u128, b: u128) -> u128 {
    if a + b > u128::MAX {
        u128::MAX
    } else {
        (a + b) as u128
    }
}

/// The rows that are live at `now`, in order.
pub open spec fn live_rows(rows: Seq<RowV>, now: u128) -> Seq<RowV>
    decreases rows.len(),
{
    if rows.len() == 0 {
        rows
    } else if entry_live((rows[0].1, rows[0].2), now) {
        seq![rows[0]] + live_rows(rows.drop_first(), now)
    } else {
        live_rows(rows.drop_first(), now)
    }
}

/// Every surviving row was already there before the sweep, and keys stay
/// pairwise distinct.
proof fn lemma_live_rows_props(rows: Seq<RowV>, now: u128)
    requires
        keys_unique(rows),
    ensures
        keys_unique(live_rows(rows, now)),
        forall|j: int|
            0 <= j < live_rows(rows, now).len() ==> rows.contains(#[trigger] live_rows(rows, now)[j]),
    decreases rows.len(),
{
    if rows.len() > 0 {
        let rest = rows.drop_first();
        let live = live_rows(rows, now);
        lemma_live_rows_props(rest, now);
        assert(forall|j: int| 0 <= j < rest.len() ==> rest[j] == rows[j + 1]);
        assert forall|j: int|
            0 <= j < live_rows(rest, now).len() implies rows.contains(
            #[trigger] live_rows(rest, now)[j],
        ) by {
            let r = live_rows(rest, now)[j];
            assert(rest.contains(r));
            let i = choose|i: int| 0 <= i < rest.len() && rest[i] == r;
            assert(rows[i + 1] == r);
        }
        if entry_live((rows[0].1, rows[0].2), now) {
            assert(live[0] == rows[0]);
            assert(forall|j: int| 1 <= j < live.len() ==> live[j] == live_rows(rest, now)[j - 1]);
            assert forall|i: int, j: int| 0 <= i < j < live.len() implies (#[trigger] live[i]).0
                != (#[trigger] live[j]).0 by {
                if i == 0 {
                    let r = live[j];
                    assert(rest.contains(r));
                    let m = choose|m: int| 0 <= m < rest.len() && rest[m] == r;
                    assert(rows[m + 1] == r);
                    assert(rows[0].0 != rows[m + 1].0);
                }
            }
        }
    }
}

/// What the scan finds among the live rows: the lookup from before, masked
/// by liveness.
proof fn lemma_find_live(rows: Seq<RowV>, now: u128, q: Seq<u8>)
    requires
        keys_unique(rows),
    ensures
        find_row(live_rows(rows, now), q) == (match find_row(rows, q) {
            Some(e) => if entry_live(e, now) {
                Some(e)
            } else {
                None::<EntryV>
            },
            None => None::<EntryV>,
        }),
    decreases rows.len(),
{
    if rows.len() > 0 {
        let rest = rows.drop_first();
        let live = live_rows(rows, now);
        lemma_find_live(rest, now, q);
        if entry_live((rows[0].1, rows[0].2), now) {
            assert(live[0] == rows[0]);
            if rows[0].0 == q {
            } else {
                assert(live.drop_first() =~= live_rows(rest, now));
            }
        } else {
            if rows[0].0 == q {
                // the dead head hides `q`; no other row carries it
                assert(forall|j: int| 0 <= j < rest.len() ==> (#[trigger] rest[j]).0 != q);
                lemma_live_rows_props(rest, now);
                assert forall|j: int|
                    0 <= j < live_rows(rest, now).len() implies (#[trigger] live_rows(rest, now)[j]).0
                    != q by {
                    let r = live_rows(rest, now)[j];
                    assert(rest.contains(r));
                }
                lemma_find_absent(live_rows(rest, now), q);
            }
        }
    }
}

impl Database {
    /// Inserts or overwrites `key` with `value` and the given absolute
    /// expiration instant, fully replacing any prior entry.
    pub fn set_with_expiretime(&mut self, key: Vec<u8>, value: Value, expire_in: Option<u128>)
        requires
            old(self).wf(),
            value@.wf(),
        ensures
            final(self).wf(),
            final(self)@ == old(self)@.insert(key@, (value@, expire_in)),
    {
        let ghost old_rows = self.rows();
        let ghost nr: RowV = (key@, value@, expire_in);
        let ghost target = old(self)@.insert(key@, (value@, expire_in));
        match self.find_index(key.as_slice()) {
            Some(i) => {
                self.data[i] = (key, value, expire_in);
                proof {
                    assert(self.rows() =~= old_rows.update(i as int, nr));
                    assert(forall|j: int|
                        0 <= j < self.rows().len() ==> (#[trigger] self.rows()[j]).0
                            == old_rows[j].0);
                    assert(keys_unique(self.rows()));
                    assert forall|q: Seq<u8>| true implies find_row(self.rows(), q) == (if q
                        == key@ {
                        Some((value@, expire_in))
                    } else {
                        find_row(old_rows, q)
                    }) by {
                        lemma_find_update(old_rows, i as int, nr, q);
                    }
                    assert(self@ =~= target);
                }
            },
            None => {
                self.data.push((key, value, expire_in));
                proof {
                    assert(self.rows() =~= old_rows.push(nr));
                    assert(keys_unique(self.rows()));
                    assert forall|q: Seq<u8>| true implies find_row(self.rows(), q) == (if q
                        == key@ {
                        Some((value@, expire_in))
                    } else {
                        find_row(old_rows, q)
                    }) by {
                        lemma_find_push(old_rows, nr, q);
                        if q == key@ {
                            lemma_find_absent(old_rows, q);
                        }
                    }
                    assert(self@ =~= target);
                }
            },
        }
    }

    /// Inserts or overwrites `key` with `value` and no expiration.
    pub fn set(&mut self, key: Vec<u8>, value: Value)
        requires
            old(self).wf(),
            value@.wf(),
        ensures
            final(self).wf(),
            final(self)@ == old(self)@.insert(key@, (value@, None)),
    {
        self.set_with_expiretime(key, value, None);
    }

    /// Replaces the value stored under a present key, keeping the key's
    /// expiration instant: the write path of every in-place mutation,
    /// which preserves a key's time to live.
    pub fn set_keep_ttl(&mut self, key: &[u8], value: Value)
        requires
            old(self).wf(),
            value@.wf(),
            old(self)@.dom().contains(key@),
        ensures
            final(self).wf(),
            final(self)@ == old(self)@.insert(key@, (value@, old(self)@[key@].1)),
    {
        match self.find_index(key) {
            Some(i) => {
                proof {
                    lemma_find_at(self.rows(), i as int);
                }
                let expire_in = self.data[i].2;
                let owned_key = vstd::slice::slice_to_vec(key);
                self.set_with_expiretime(owned_key, value, expire_in);
            },
            None => {
                proof {
                    lemma_find_absent(self.rows(), key@);
                }
                vstd::pervasive::unreached()
            },
        }
    }

    /// Converts a duration in milliseconds to an absolute instant against
    /// the given clock reading and writes the entry; `None` means no
    /// expiration.
    pub fn set_with_duration_at(
        &mut self,
        key: Vec<u8>,
        value: Value,
        duration: Option<u128>,
        now: u128,
    )
        requires
            old(self).wf(),
            value@.wf(),
        ensures
            final(self).wf(),
            final(self)@ == old(self)@.insert(
                key@,
                (
                    value@,
                    match duration {
                        Some(d) => Some(sat_add(now, d)),
                        None => None,
                    },
                ),
            ),
    {
        let expire_in = match duration {
            Some(d) => Some(
                if now > u128::MAX - d {
                    u128::MAX
                } else {
                    now + d
                },
            ),
            None => None,
        };
        self.set_with_expiretime(key, value, expire_in);
    }

    /// Writes the entry with the duration converted against the wall
    /// clock at call time: the instant stored is some clock reading plus
    /// the duration, and an expiration is stored exactly when a duration
    /// was given.
    pub fn set_with_duration(&mut self, key: Vec<u8>, value: Value, duration: Option<u128>)
        requires
            old(self).wf(),
            value@.wf(),
        ensures
            final(self).wf(),
            exists|t: Option<u128>|
                final(self)@ == old(self)@.insert(key@, (value@, t)) && (t is Some <==> duration
                    is Some),
    {
        let now = now_millis();
        self.set_with_duration_at(key, value, duration, now);
    }

    /// Removes the entry under `key` whether or not it has expired, and
    /// returns it if one was physically present.
    pub fn del(&mut self, key: &[u8]) -> (r: Option<(Value, Option<u128>)>)
        requires
            old(self).wf(),
        ensures
            final(self).wf(),
            final(self)@ == old(self)@.remove(key@),
            match r {
                Some(e) => old(self)@.dom().contains(key@) && (e.0@, e.1) == old(self)@[key@],
                None => !old(self)@.dom().contains(key@),
            },
    {
        let ghost old_rows = self.rows();
        match self.find_index(key) {
            Some(i) => {
                proof {
                    lemma_find_at(old_rows, i as int);
                }
                let row = self.data.remove(i);
                proof {
                    assert(self.rows() =~= old_rows.remove(i as int));
                    assert forall|a: int, b: int| 0 <= a < b < self.rows().len() implies (
                    #[trigger] self.rows()[a]).0 != (#[trigger] self.rows()[b]).0 by {
                        let ra = if a < i as int { a } else { a + 1 };
                        let rb = if b < i as int { b } else { b + 1 };
                        assert(self.rows()[a] == old_rows[ra]);
                        assert(self.rows()[b] == old_rows[rb]);
                    }
                    assert forall|q: Seq<u8>| true implies find_row(self.rows(), q) == (if q
                        == key@ {
                        None::<EntryV>
                    } else {
                        find_row(old_rows, q)
                    }) by {
                        lemma_find_remove(old_rows, i as int, q);
                    }
                    assert(self@ =~= old(self)@.remove(key@));
                }
                Some((row.1, row.2))
            },
            None => {
                proof {
                    lemma_find_absent(old_rows, key@);
                    assert(self@ =~= old(self)@.remove(key@));
                }
                None
            },
        }
    }

    /// Physical presence: true even for an entry whose instant has
    /// passed. Diagnostic use only; command handlers never call it.
    pub fn exists_include_expired(&self, key: &[u8]) -> (r: bool)
        requires
            self.wf(),
        ensures
            r == self@.dom().contains(key@),
    {
        match self.find_index(key) {
            Some(i) => {
                proof {
                    lemma_find_at(self.rows(), i as int);
                }
                true
            },
            None => {
                proof {
                    lemma_find_absent(self.rows(), key@);
                }
                false
            },
        }
    }

    /// The value under `key` as observed at instant `now`: absent keys
    /// and entries that expired before `now` read as `None`.
    pub fn get_at(&self, key: &[u8], now: u128) -> (r: Option<&Value>)
        requires
            self.wf(),
        ensures
            match r {
                Some(v) => spec_get(self@, key@, now) == Some(v@) && v@.wf(),
                None => spec_get(self@, key@, now) is None,
            },
    {
        match self.find_index(key) {
            Some(i) => {
                proof {
                    lemma_find_at(self.rows(), i as int);
                }
                let row = &self.data[i];
                match row.2 {
                    Some(t) => if now <= t {
                        Some(&row.1)
                    } else {
                        None
                    },
                    None => Some(&row.1),
                }
            },
            None => {
                proof {
                    lemma_find_absent(self.rows(), key@);
                }
                None
            },
        }
    }

    /// The value under `key` as observed against the wall clock at call
    /// time. A key with no expiration is always returned; an absent key
    /// never is; whatever is returned is the stored value.
    pub fn get(&self, key: &[u8]) -> (r: Option<&Value>)
        requires
            self.wf(),
        ensures
            match r {
                Some(v) => self@.dom().contains(key@) && self@[key@].0 == v@,
                None => !self@.dom().contains(key@) || self@[key@].1 is Some,
            },
            self@.dom().contains(key@) && self@[key@].1 is None ==> r is Some,
    {
        self.get_at(key, now_millis())
    }

    /// Logical existence at instant `now`.
    pub fn exists_at(&self, key: &[u8], now: u128) -> (r: bool)
        requires
            self.wf(),
        ensures
            r == (spec_get(self@, key@, now) is Some),
    {
        match self.get_at(key, now) {
            Some(_) => true,
            None => false,
        }
    }

    /// Logical existence against the wall clock at call time.
    pub fn exists_now(&self, key: &[u8]) -> (r: bool)
        requires
            self.wf(),
        ensures
            !self@.dom().contains(key@) ==> !r,
            self@.dom().contains(key@) && self@[key@].1 is None ==> r,
            r ==> self@.dom().contains(key@),
    {
        self.exists_at(key, now_millis())
    }

    /// Physically removes every entry that is no longer live at `now`;
    /// live entries are untouched.
    pub fn clean_expired_at(&mut self, now: u128)
        requires
            old(self).wf(),
        ensures
            final(self).wf(),
            final(self)@ == spec_clean(old(self)@, now),
    {
        let ghost old_rows = self.rows();
        let mut kept: Vec<(Vec<u8>, Value, Option<u128>)> = Vec::new();
        let ghost processed: int = 0;
        loop
            invariant
                0 <= processed <= old_rows.len(),
                self.rows() == old_rows.skip(processed),
                rows_of(kept@) + live_rows(self.rows(), now) == live_rows(old_rows, now),
                self.data.len() == old_rows.len() - processed,
            ensures
                rows_of(kept@) == live_rows(old_rows, now),
            decreases old_rows.len() - processed,
        {
            if self.data.len() == 0 {
                proof {
                    assert(processed == old_rows.len());
                    assert(self.rows() =~= Seq::<RowV>::empty());
                    assert(live_rows(self.rows(), now) == Seq::<RowV>::empty());
                    assert(rows_of(kept@) + Seq::<RowV>::empty() =~= rows_of(kept@));
                }
                break ;
            }
            let ghost pre_rows = self.rows();
            let ghost kept_pre = kept@;
            let row = self.data.remove(0);
            let live = match row.2 {
                Some(t) => now <= t,
                None => true,
            };
            proof {
                assert(self.rows() =~= pre_rows.drop_first());
                assert(pre_rows[0] == (row.0@, row.1@, row.2));
                assert(live == entry_live((pre_rows[0].1, pre_rows[0].2), now));
                processed = processed + 1;
                assert(pre_rows.drop_first() =~= old_rows.skip(processed));
            }
            if live {
                kept.push(row);
                proof {
                    assert(rows_of(kept@) =~= rows_of(kept_pre).push(pre_rows[0]));
                    assert(live_rows(pre_rows, now) == seq![pre_rows[0]] + live_rows(
                        pre_rows.drop_first(),
                        now,
                    ));
                    assert(rows_of(kept_pre).push(pre_rows[0]) + live_rows(
                        pre_rows.drop_first(),
                        now,
                    ) =~= rows_of(kept_pre) + live_rows(pre_rows, now));
                }
            } else {
                proof {
                    assert(live_rows(pre_rows, now) == live_rows(pre_rows.drop_first(), now));
                }
            }
        }
        self.data = kept;
        proof {
            assert(self.rows() == live_rows(old_rows, now));
            lemma_live_rows_props(old_rows, now);
            assert forall|j: int| 0 <= j < self.rows().len() implies (#[trigger] self.rows()[j]).1.wf()
                by {
                let r = self.rows()[j];
                assert(old_rows.contains(r));
            }
            assert forall|q: Seq<u8>| true implies find_row(self.rows(), q) == (match find_row(
                old_rows,
                q,
            ) {
                Some(e) => if entry_live(e, now) {
                    Some(e)
                } else {
                    None::<EntryV>
                },
                None => None::<EntryV>,
            }) by {
                lemma_find_live(old_rows, now, q);
            }
            assert(self@ =~= spec_clean(old(self)@, now));
        }
    }

    /// Sweeps against the wall clock at call time: afterwards the store
    /// holds exactly the entries live at some clock reading.
    pub fn clean_expired(&mut self)
        requires
            old(self).wf(),
        ensures
            final(self).wf(),
            exists|now: u128| final(self)@ == spec_clean(old(self)@, now),
    {
        let now = now_millis();
        self.clean_expired_at(now);
        proof {
            assert(final(self)@ == spec_clean(old(self)@, now));
        }
    }

    /// The physical entry count, expired entries included.
    pub fn len_include_expired(&self) -> (r: usize)
        requires
            self.wf(),
        ensures
            r == self@.len(),
    {
        proof {
            lemma_database_len(*self);
        }
        self.data.len()
    }
}

/// The abstract map is exactly as large as the physical row vector.
proof fn lemma_database_len(db: Database)
    requires
        db.wf(),
    ensures
        db@.dom() =~= db.rows().map_values(|r: RowV| r.0).to_set(),
        db@.len() == db.rows().len(),
{
    let rows = db.rows();
    let keys = rows.map_values(|r: RowV| r.0);
    assert forall|q: Seq<u8>| db@.dom().contains(q) implies keys.to_set().contains(q) by {
        lemma_find_some_exists(rows, q);
        let i = choose|i: int| 0 <= i < rows.len() && rows[i].0 == q;
        assert(keys[i] == q);
    }
    assert forall|q: Seq<u8>| keys.to_set().contains(q) implies db@.dom().contains(q) by {
        let i = choose|i: int| 0 <= i < keys.len() && keys[i] == q;
        lemma_find_at(rows, i);
    }
    assert(db@.dom() =~= keys.to_set());
    assert(keys.no_duplicates()) by {
        assert forall|i: int, j: int|
            0 <= i < keys.len() && 0 <= j < keys.len() && i != j implies keys[i] != keys[j] by {
            if i < j {
                assert(rows[i].0 != rows[j].0);
            } else {
                assert(rows[j].0 != rows[i].0);
            }
        }
    }
    keys.unique_seq_to_set();
}

/// A successful scan means some row carries the key.
proof fn lemma_find_some_exists(rows: Seq<RowV>, q: Seq<u8>)
    requires
        find_row(rows, q) is Some,
    ensures
        exists|i: int| 0 <= i < rows.len() && (#[trigger] rows[i]).0 == q,
    decreases rows.len(),
{
    if rows[0].0 == q {
        assert(rows[0].0 == q);
    } else {
        lemma_find_some_exists(rows.drop_first(), q);
        let i = choose|i: int|
            0 <= i < rows.drop_first().len() && (#[trigger] rows.drop_first()[i]).0 == q;
        assert(rows[i + 1].0 == q);
    }
}

} // verus!
