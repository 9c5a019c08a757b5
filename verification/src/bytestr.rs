//! Helpers on byte strings: comparison and ASCII case mapping.
//!
//! Keys, values and command names are binary-safe byte strings, so the
//! whole crate works on `Vec<u8>` / `&[u8]` rather than `String`.

use vstd::prelude::*;

verus! {

/// Exact byte-wise equality of two byte strings.
pub fn bytes_eq(a: &[u8], b: &[u8]) -> (r: bool)
    ensures
        r == (a@ == b@),
{
    if a.len() != b.len() {
        return false;
    }
    for i in 0..a.len()
        invariant
            a@.len() == b@.len(),
            forall|j: int| 0 <= j < i ==> a@[j] == b@[j],
    {
        if a[i] != b[i] {
            return false;
        }
    }
    proof {
        assert(a@ =~= b@);
    }
    true
}

/// The ASCII upper-case image of one byte.
pub open spec fn upper_byte(b: u8) -> u8 {
    if 97 <= b <= 122 {
        (b - 32) as u8
    } else {
        b
    }
}

/// A byte string mapped to ASCII upper case.
pub open spec fn upper_bytes(s: Seq<u8>) -> Seq<u8> {
    s.map_values(|b: u8| upper_byte(b))
}

/// Maps a byte string to ASCII upper case; bytes outside `a..=z` are kept.
pub fn to_upper(s: &[u8]) -> (r: Vec<u8>)
    ensures
        r@ == upper_bytes(s@),
{
    let mut out: Vec<u8> = Vec::new();
    for i in 0..s.len()
        invariant
            out@ == upper_bytes(s@.take(i as int)),
    {
        let b = s[i];
        if 97 <= b && b <= 122 {
            out.push(b - 32);
        } else {
            out.push(b);
        }
        proof {
            assert(s@.take(i + 1).drop_last() =~= s@.take(i as int));
            assert(upper_bytes(s@.take(i + 1)) =~= upper_bytes(s@.take(i as int)).push(
                upper_byte(s@[i as int]),
            ));
        }
    }
    proof {
        assert(s@.take(s@.len() as int) =~= s@);
    }
    out
}

/// Appends a byte string to a buffer.
pub fn append_bytes(out: &mut Vec<u8>, s: &[u8])
    ensures
        final(out)@ == old(out)@ + s@,
{
    for i in 0..s.len()
        invariant
            out@ == old(out)@ + s@.take(i as int),
    {
        out.push(s[i]);
        proof {
            assert(old(out)@ + s@.take(i + 1) =~= (old(out)@ + s@.take(i as int)).push(s@[i as int]));
        }
    }
    proof {
        assert(s@.take(s@.len() as int) =~= s@);
    }
}

/// The views of a sequence of byte vectors.
pub open spec fn views_of(s: Seq<Vec<u8>>) -> Seq<Seq<u8>> {
    s.map_values(|v: Vec<u8>| v@)
}

/// The views of a sequence of byte-vector pairs.
pub open spec fn pair_views(s: Seq<(Vec<u8>, Vec<u8>)>) -> Seq<(Seq<u8>, Seq<u8>)> {
    s.map_values(|p: (Vec<u8>, Vec<u8>)| (p.0@, p.1@))
}

/// A copy of a sequence of byte vectors.
pub fn clone_byte_vecs(l: &Vec<Vec<u8>>) -> (r: Vec<Vec<u8>>)
    ensures
        views_of(r@) == views_of(l@),
{
    let mut out: Vec<Vec<u8>> = Vec::new();
    let n = l.len();
    for i in 0..n
        invariant
            n == l@.len(),
            out@.len() == i,
            forall|j: int| 0 <= j < i ==> (#[trigger] out@[j])@ == l@[j]@,
    {
        out.push(vstd::slice::slice_to_vec(l[i].as_slice()));
    }
    proof {
        assert(views_of(out@) =~= views_of(l@));
    }
    out
}

/// A copy of a sequence of byte-vector pairs.
pub fn clone_byte_pairs(l: &Vec<(Vec<u8>, Vec<u8>)>) -> (r: Vec<(Vec<u8>, Vec<u8>)>)
    ensures
        pair_views(r@) == pair_views(l@),
{
    let mut out: Vec<(Vec<u8>, Vec<u8>)> = Vec::new();
    let n = l.len();
    for i in 0..n
        invariant
            n == l@.len(),
            out@.len() == i,
            forall|j: int|
                0 <= j < i ==> ((#[trigger] out@[j]).0@, out@[j].1@) == (l@[j].0@, l@[j].1@),
    {
        let p = &l[i];
        out.push((vstd::slice::slice_to_vec(p.0.as_slice()), vstd::slice::slice_to_vec(
            p.1.as_slice(),
        )));
    }
    proof {
        assert(pair_views(out@) =~= pair_views(l@));
    }
    out
}

/// Whether a byte string occurs among the views of `es`.
pub fn contains_bytes(es: &Vec<Vec<u8>>, x: &[u8]) -> (r: bool)
    ensures
        r == views_of(es@).contains(x@),
{
    let n = es.len();
    for i in 0..n
        invariant
            n == es@.len(),
            forall|j: int| 0 <= j < i ==> (#[trigger] es@[j])@ != x@,
    {
        if bytes_eq(es[i].as_slice(), x) {
            proof {
                assert(views_of(es@)[i as int] == x@);
            }
            return true;
        }
    }
    proof {
        assert forall|j: int| 0 <= j < views_of(es@).len() implies views_of(es@)[j] != x@ by {
            assert(es@[j]@ != x@);
        }
    }
    false
}

/// An ASCII decimal digit.
pub open spec fn is_digit(b: u8) -> bool {
    48 <= b <= 57
}

/// Every byte an ASCII decimal digit.
pub open spec fn all_digits(s: Seq<u8>) -> bool {
    forall|j: int| 0 <= j < s.len() ==> is_digit(#[trigger] s[j])
}

/// The numeric value of one digit byte (a non-digit counts zero, keeping
/// the function total).
pub open spec fn digit_val(b: u8) -> nat {
    if is_digit(b) {
        (b - 48) as nat
    } else {
        0
    }
}

/// The number a digit run denotes, most significant digit first.
pub open spec fn dec_val(s: Seq<u8>) -> nat
    decreases s.len(),
{
    if s.len() == 0 {
        0
    } else {
        dec_val(s.drop_last()) * 10 + digit_val(s.last())
    }
}

/// The canonical decimal digits of `n`: no sign, no leading zero.
pub open spec fn dec_digits(n: nat) -> Seq<u8>
    decreases n,
{
    if n < 10 {
        seq![(n + 48) as u8]
    } else {
        dec_digits(n / 10).push((n % 10 + 48) as u8)
    }
}

/// The canonical decimal form of a signed number.
pub open spec fn dec_int(n: int) -> Seq<u8> {
    if n < 0 {
        seq![45u8] + dec_digits((-n) as nat)
    } else {
        dec_digits(n as nat)
    }
}

/// Canonical digits are digits.
pub proof fn lemma_dec_digits_are_digits(n: nat)
    ensures
        forall|j: int| 0 <= j < dec_digits(n).len() ==> is_digit(#[trigger] dec_digits(n)[j]),
        dec_digits(n).len() >= 1,
    decreases n,
{
    if n >= 10 {
        lemma_dec_digits_are_digits(n / 10);
    }
}

/// Reading back the canonical digits yields the number.
pub proof fn lemma_dec_val_of_digits(n: nat)
    ensures
        dec_val(dec_digits(n)) == n,
    decreases n,
{
    if n < 10 {
        assert(dec_digits(n).drop_last() =~= Seq::<u8>::empty());
        assert(dec_digits(n).last() == (n + 48) as u8);
        assert(dec_val(dec_digits(n)) == dec_val(Seq::<u8>::empty()) * 10 + digit_val(
            (n + 48) as u8,
        ));
    } else {
        lemma_dec_val_of_digits(n / 10);
        lemma_dec_digits_are_digits(n / 10);
        let d = ((n % 10) + 48) as u8;
        assert(dec_digits(n) == dec_digits(n / 10).push(d));
        assert(dec_digits(n).drop_last() =~= dec_digits(n / 10));
        assert(dec_val(dec_digits(n)) == dec_val(dec_digits(n / 10)) * 10 + digit_val(d));
    }
}

/// A digit run is worth at least any of its prefixes.
pub proof fn lemma_dec_val_prefix(s: Seq<u8>, k: int)
    requires
        0 <= k <= s.len(),
    ensures
        dec_val(s.take(k)) <= dec_val(s),
    decreases s.len(),
{
    if k < s.len() {
        assert(s.drop_last().take(k) =~= s.take(k));
        lemma_dec_val_prefix(s.drop_last(), k);
        assert(dec_val(s.drop_last()) * 10 >= dec_val(s.drop_last()));
    } else {
        assert(s.take(k) =~= s);
    }
}

/// Appends the canonical decimal digits of `n`.
pub fn push_dec(n: u128, out: &mut Vec<u8>)
    ensures
        final(out)@ == old(out)@ + dec_digits(n as nat),
    decreases n,
{
    if n < 10 {
        out.push((n as u8) + 48);
        proof {
            assert(old(out)@ + dec_digits(n as nat) =~= old(out)@.push(((n as u8) + 48) as u8));
        }
    } else {
        push_dec(n / 10, out);
        out.push(((n % 10) as u8) + 48);
        proof {
            assert(old(out)@ + dec_digits(n as nat) =~= (old(out)@ + dec_digits(
                n as nat / 10,
            )).push((((n as nat) % 10 + 48)) as u8));
        }
    }
}

/// Appends the canonical decimal form of a signed number.
pub fn push_dec_i64(n: i64, out: &mut Vec<u8>)
    ensures
        final(out)@ == old(out)@ + dec_int(n as int),
{
    if n < 0 {
        out.push(45);
        let m: u128 = (-(n as i128)) as u128;
        push_dec(m, out);
        proof {
            assert(old(out)@ + dec_int(n as int) =~= old(out)@.push(45u8) + dec_digits(
                (-(n as int)) as nat,
            ));
        }
    } else {
        push_dec(n as u128, out);
    }
}

/// The value of the digit run `s[start..end]`, unless it exceeds
/// `usize::MAX`.
pub fn dec_run_value(s: &[u8], start: usize, end: usize) -> (r: Option<usize>)
    requires
        start <= end <= s@.len(),
        forall|j: int| start <= j < end ==> is_digit(#[trigger] s@[j]),
    ensures
        match r {
            Some(v) => v == dec_val(s@.subrange(start as int, end as int)),
            None => dec_val(s@.subrange(start as int, end as int)) > usize::MAX,
        },
{
    let ghost body = s@.subrange(start as int, end as int);
    let mut acc: u128 = 0;
    let mut i = start;
    while i < end
        invariant
            start <= i <= end <= s@.len(),
            body == s@.subrange(start as int, end as int),
            forall|j: int| start <= j < end ==> is_digit(#[trigger] s@[j]),
            acc == dec_val(s@.subrange(start as int, i as int)),
            acc <= usize::MAX,
        decreases end - i,
    {
        let b = s[i];
        acc = acc * 10 + ((b - 48) as u128);
        i = i + 1;
        proof {
            assert(s@.subrange(start as int, i as int).drop_last() =~= s@.subrange(
                start as int,
                i - 1,
            ));
            assert(s@.subrange(start as int, i as int).last() == s@[i - 1]);
        }
        if acc > (usize::MAX as u128) {
            proof {
                assert(body.take(i - start) =~= s@.subrange(start as int, i as int));
                lemma_dec_val_prefix(body, i - start);
            }
            return None;
        }
    }
    proof {
        assert(s@.subrange(start as int, end as int) == body);
    }
    Some(acc as usize)
}

/// What `i64` reads from a decimal byte string: an optional ASCII sign,
/// then one or more digits, within the type's range.
pub open spec fn spec_parse_i64(s: Seq<u8>) -> Option<i64> {
    if s.len() == 0 {
        None
    } else {
        let neg = s[0] == 45;
        let signed = neg || s[0] == 43;
        let body = if signed {
            s.drop_first()
        } else {
            s
        };
        if body.len() == 0 || !all_digits(body) {
            None
        } else {
            let v = dec_val(body);
            if neg {
                if v <= 9223372036854775808 {
                    Some((-(v as int)) as i64)
                } else {
                    None
                }
            } else {
                if v <= 9223372036854775807 {
                    Some(v as i64)
                } else {
                    None
                }
            }
        }
    }
}

/// Reads a signed 64-bit decimal number, as `str::parse::<i64>` does:
/// optional sign, at least one digit, rejecting anything else and any
/// value out of range.
pub fn parse_i64(s: &[u8]) -> (r: Option<i64>)
    ensures
        r == spec_parse_i64(s@),
{
    if s.len() == 0 {
        return None;
    }
    let neg = s[0] == 45;
    let signed = neg || s[0] == 43;
    let start: usize = if signed {
        1
    } else {
        0
    };
    let ghost body = if signed {
        s@.drop_first()
    } else {
        s@
    };
    if s.len() == start {
        return None;
    }
    let mut acc: u128 = 0;
    let mut i = start;
    while i < s.len()
        invariant
            s@.len() > 0,
            neg == (s@[0] == 45),
            signed == (neg || s@[0] == 43),
            start <= i <= s@.len(),
            start == if signed { 1int } else { 0int },
            body == if signed { s@.drop_first() } else { s@ },
            body.len() == s@.len() - start,
            forall|j: int| 0 <= j < i - start ==> is_digit(#[trigger] body[j]),
            forall|j: int| 0 <= j < body.len() ==> body[j] == s@[j + start],
            acc == dec_val(body.take(i - start)),
            acc <= 9223372036854775808,
        decreases s@.len() - i,
    {
        let b = s[i];
        if !(48 <= b && b <= 57) {
            proof {
                assert(body[i - start] == s@[i as int]);
                assert(!all_digits(body));
            }
            return None;
        }
        acc = acc * 10 + ((b - 48) as u128);
        i = i + 1;
        proof {
            assert(body.take(i - start).drop_last() =~= body.take(i - 1 - start));
            assert(body.take(i - start).last() == body[i - 1 - start]);
            assert(body[i - 1 - start] == s@[i - 1]);
        }
        if acc > 9223372036854775808 {
            proof {
                lemma_dec_val_prefix(body, i - start);
            }
            return None;
        }
    }
    proof {
        assert(body.take(s@.len() - start) =~= body);
        assert(all_digits(body));
    }
    if neg {
        if acc == 9223372036854775808 {
            Some(i64::MIN)
        } else {
            Some(-(acc as i64))
        }
    } else {
        if acc > 9223372036854775807 {
            None
        } else {
            Some(acc as i64)
        }
    }
}

/// What `u64` reads from a decimal byte string: an optional ASCII plus,
/// then one or more digits, within the type's range.
pub open spec fn spec_parse_u64(s: Seq<u8>) -> Option<u64> {
    if s.len() == 0 {
        None
    } else {
        let body = if s[0] == 43 {
            s.drop_first()
        } else {
            s
        };
        if body.len() == 0 || !all_digits(body) {
            None
        } else if dec_val(body) <= u64::MAX {
            Some(dec_val(body) as u64)
        } else {
            None
        }
    }
}

/// Reads an unsigned 64-bit decimal number, as `str::parse::<u64>` does.
pub fn parse_u64(s: &[u8]) -> (r: Option<u64>)
    ensures
        r == spec_parse_u64(s@),
{
    if s.len() == 0 {
        return None;
    }
    let signed = s[0] == 43;
    let start: usize = if signed {
        1
    } else {
        0
    };
    let ghost body = if signed {
        s@.drop_first()
    } else {
        s@
    };
    if s.len() == start {
        return None;
    }
    let mut acc: u128 = 0;
    let mut i = start;
    while i < s.len()
        invariant
            s@.len() > 0,
            signed == (s@[0] == 43),
            start <= i <= s@.len(),
            start == if signed { 1int } else { 0int },
            body == if signed { s@.drop_first() } else { s@ },
            body.len() == s@.len() - start,
            forall|j: int| 0 <= j < i - start ==> is_digit(#[trigger] body[j]),
            forall|j: int| 0 <= j < body.len() ==> body[j] == s@[j + start],
            acc == dec_val(body.take(i - start)),
            acc <= u64::MAX,
        decreases s@.len() - i,
    {
        let b = s[i];
        if !(48 <= b && b <= 57) {
            proof {
                assert(body[i - start] == s@[i as int]);
                assert(!all_digits(body));
            }
            return None;
        }
        acc = acc * 10 + ((b - 48) as u128);
        i = i + 1;
        proof {
            assert(body.take(i - start).drop_last() =~= body.take(i - 1 - start));
            assert(body.take(i - start).last() == body[i - 1 - start]);
            assert(body[i - 1 - start] == s@[i - 1]);
        }
        if acc > (u64::MAX as u128) {
            proof {
                lemma_dec_val_prefix(body, i - start);
            }
            return None;
        }
    }
    proof {
        assert(body.take(s@.len() - start) =~= body);
        assert(all_digits(body));
    }
    Some(acc as u64)
}

} // verus!
