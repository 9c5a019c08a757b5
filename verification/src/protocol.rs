//! The RESP wire codec.
//!
//! Requests arrive as arrays of bulk strings; replies go out as any of
//! the reply forms. Decoding is resumable: a buffer that does not yet
//! hold a complete frame is left intact and reported as "no frame yet",
//! while malformed framing is an error that is fatal to the connection.

use vstd::prelude::*;

use crate::bytestr::{
    all_digits, append_bytes, dec_digits, dec_int, dec_run_value, dec_val, is_digit,
    lemma_dec_digits_are_digits, lemma_dec_val_of_digits, push_dec, push_dec_i64,
};

verus! {

broadcast use vstd::seq::group_seq_axioms, vstd::std_specs::vec::group_vec_axioms;

/// One RESP value: a frame read off the wire or a reply to be written.
#[derive(Debug, PartialEq, Eq)]
pub enum RespValue {
    SimpleString(Vec<u8>),
    Error(Vec<u8>),
    Integer(i64),
    BulkString(Option<Vec<u8>>),
    Null,
    Array(Vec<RespValue>),
}

/// The mathematical shape of a [`RespValue`].
pub enum RespV {
    SimpleString(Seq<u8>),
    Error(Seq<u8>),
    Integer(int),
    BulkString(Option<Seq<u8>>),
    Null,
    Array(Seq<RespV>),
}

/// The abstraction of one value; arrays abstract element-wise.
pub open spec fn resp_view(v: RespValue) -> RespV
    decreases v,
{
    match v {
        RespValue::SimpleString(s) => RespV::SimpleString(s@),
        RespValue::Error(s) => RespV::Error(s@),
        RespValue::Integer(n) => RespV::Integer(n as int),
        RespValue::BulkString(o) => RespV::BulkString(
            match o {
                Some(s) => Some(s@),
                None => None,
            },
        ),
        RespValue::Null => RespV::Null,
        RespValue::Array(items) => RespV::Array(resp_view_list(items@)),
    }
}

/// Element-wise abstraction of a sequence of values.
pub open spec fn resp_view_list(items: Seq<RespValue>) -> Seq<RespV>
    decreases items,
{
    if items.len() == 0 {
        Seq::empty()
    } else {
        seq![resp_view(items[0])] + resp_view_list(items.drop_first())
    }
}

/// The abstraction is element-wise.
pub proof fn lemma_view_list(items: Seq<RespValue>)
    ensures
        resp_view_list(items).len() == items.len(),
        forall|j: int|
            0 <= j < items.len() ==> resp_view_list(items)[j] == resp_view(#[trigger] items[j]),
    decreases items.len(),
{
    if items.len() > 0 {
        lemma_view_list(items.drop_first());
        assert(forall|j: int|
            1 <= j < items.len() ==> resp_view_list(items)[j] == resp_view_list(
                items.drop_first(),
            )[j - 1]);
        assert(forall|j: int| 1 <= j < items.len() ==> items.drop_first()[j - 1] == items[j]);
    }
}

impl Clone for RespValue {
    /// A clone denotes the same value.
    #[verifier::loop_isolation(false)]
    fn clone(&self) -> (r: Self)
        ensures
            resp_view(r) == resp_view(*self),
        decreases *self,
    {
        match self {
            RespValue::SimpleString(s) => RespValue::SimpleString(s.clone()),
            RespValue::Error(s) => RespValue::Error(s.clone()),
            RespValue::Integer(n) => RespValue::Integer(*n),
            RespValue::BulkString(o) => RespValue::BulkString(
                match o {
                    Some(s) => Some(s.clone()),
                    None => None,
                },
            ),
            RespValue::Null => RespValue::Null,
            RespValue::Array(items) => {
                let n = items.len();
                let mut out: Vec<RespValue> = Vec::new();
                proof {
                    lemma_view_list(items@);
                }
                for i in 0..n
                    invariant
                        n == items.len(),
                        out@.len() == i,
                        forall|j: int|
                            0 <= j < i ==> resp_view(#[trigger] out@[j]) == resp_view(items@[j]),
                {
                    let item = &items[i];
                    out.push(item.clone());
                }
                let r = RespValue::Array(out);
                proof {
                    lemma_view_list(out@);
                    assert forall|j: int| 0 <= j < out@.len() implies resp_view_list(out@)[j]
                        == resp_view_list(items@)[j] by {
                        assert(resp_view(out@[j]) == resp_view(items@[j]));
                    }
                    assert(resp_view_list(out@) =~= resp_view_list(items@));
                }
                r
            },
        }
    }
}

/// The two-byte line terminator.
pub open spec fn crlf() -> Seq<u8> {
    seq![13u8, 10u8]
}

/// `$<len>\r\n<data>\r\n`.
pub open spec fn enc_bulk(s: Seq<u8>) -> Seq<u8> {
    seq![36u8] + dec_digits(s.len()) + crlf() + s + crlf()
}

/// The wire form of one reply value, exactly as the protocol prescribes.
pub open spec fn enc_resp(v: RespV) -> Seq<u8>
    decreases v,
{
    match v {
        RespV::SimpleString(s) => seq![43u8] + s + crlf(),
        RespV::Error(s) => seq![45u8] + s + crlf(),
        RespV::Integer(n) => seq![58u8] + dec_int(n) + crlf(),
        RespV::BulkString(o) => match o {
            Some(s) => enc_bulk(s),
            None => seq![36u8, 45u8, 49u8] + crlf(),
        },
        RespV::Null => seq![36u8, 45u8, 49u8] + crlf(),
        RespV::Array(items) => seq![42u8] + dec_digits(items.len()) + crlf() + enc_list(items),
    }
}

/// The concatenated wire forms of a sequence of values.
pub open spec fn enc_list(items: Seq<RespV>) -> Seq<u8>
    decreases items,
{
    if items.len() == 0 {
        Seq::empty()
    } else {
        enc_resp(items[0]) + enc_list(items.drop_first())
    }
}

/// Encoding a sequence extended by one value appends that value's form.
pub proof fn lemma_enc_list_push(items: Seq<RespV>, x: RespV)
    ensures
        enc_list(items.push(x)) == enc_list(items) + enc_resp(x),
    decreases items.len(),
{
    let ext = items.push(x);
    if items.len() == 0 {
        assert(ext[0] == x);
        assert(ext.drop_first() =~= Seq::<RespV>::empty());
        assert(enc_list(ext) == enc_resp(x) + enc_list(Seq::<RespV>::empty()));
        assert(enc_resp(x) + Seq::<u8>::empty() =~= enc_resp(x));
        assert(Seq::<u8>::empty() + enc_resp(x) =~= enc_resp(x));
        assert(enc_list(ext) == enc_list(items) + enc_resp(x));
    } else {
        assert(ext[0] == items[0]);
        assert(ext.drop_first() =~= items.drop_first().push(x));
        lemma_enc_list_push(items.drop_first(), x);
        assert(enc_list(ext) == enc_resp(items[0]) + (enc_list(items.drop_first()) + enc_resp(x)));
        assert(enc_resp(items[0]) + (enc_list(items.drop_first()) + enc_resp(x)) =~= (enc_resp(
            items[0],
        ) + enc_list(items.drop_first())) + enc_resp(x));
        assert(enc_list(ext) == enc_list(items) + enc_resp(x));
    }
}

/// A protocol-framing fault: the bytes on the wire are not valid RESP.
/// Fatal to the connection that produced them.
#[derive(Debug, Clone, PartialEq, Eq)]
pub struct ProtocolError;

/// The codec: [`RespParser::parse`] decodes request frames from a byte
/// buffer, [`RespParser::serializer`] encodes one reply value.
pub struct RespParser;

impl RespParser {
    /// Appends the wire form of `value` to `out`.
    #[verifier::loop_isolation(false)]
    fn encode_into(value: &RespValue, out: &mut Vec<u8>)
        ensures
            final(out)@ == old(out)@ + enc_resp(resp_view(*value)),
        decreases *value,
    {
        match value {
            RespValue::SimpleString(s) => {
                out.push(43);
                append_bytes(out, s.as_slice());
                out.push(13);
                out.push(10);
                proof {
                    assert(final(out)@ =~= old(out)@ + enc_resp(resp_view(*value)));
                }
            },
            RespValue::Error(s) => {
                out.push(45);
                append_bytes(out, s.as_slice());
                out.push(13);
                out.push(10);
                proof {
                    assert(final(out)@ =~= old(out)@ + enc_resp(resp_view(*value)));
                }
            },
            RespValue::Integer(n) => {
                out.push(58);
                push_dec_i64(*n, out);
                out.push(13);
                out.push(10);
                proof {
                    assert(final(out)@ =~= old(out)@ + enc_resp(resp_view(*value)));
                }
            },
            RespValue::BulkString(o) => {
                match o {
                    Some(s) => {
                        out.push(36);
                        push_dec(s.len() as u128, out);
                        out.push(13);
                        out.push(10);
                        append_bytes(out, s.as_slice());
                        out.push(13);
                        out.push(10);
                        proof {
                            assert(final(out)@ =~= old(out)@ + enc_resp(resp_view(*value)));
                        }
                    },
                    None => {
                        out.push(36);
                        out.push(45);
                        out.push(49);
                        out.push(13);
                        out.push(10);
                        proof {
                            assert(final(out)@ =~= old(out)@ + enc_resp(resp_view(*value)));
                        }
                    },
                }
            },
            RespValue::Null => {
                out.push(36);
                out.push(45);
                out.push(49);
                out.push(13);
                out.push(10);
                proof {
                    assert(final(out)@ =~= old(out)@ + enc_resp(resp_view(*value)));
                }
            },
            RespValue::Array(items) => {
                out.push(42);
                push_dec(items.len() as u128, out);
                out.push(13);
                out.push(10);
                let ghost base = out@;
                let n = items.len();
                let ghost vitems = resp_view_list(items@);
                proof {
                    lemma_view_list(items@);
                }
                for i in 0..n
                    invariant
                        n == items.len(),
                        vitems == resp_view_list(items@),
                        vitems.len() == items.len(),
                        forall|j: int|
                            0 <= j < items.len() ==> vitems[j] == resp_view(#[trigger] items@[j]),
                        out@ == base + enc_list(vitems.take(i as int)),
                {
                    let item = &items[i];
                    Self::encode_into(item, out);
                    proof {
                        assert(vitems.take(i + 1) =~= vitems.take(i as int).push(vitems[i as int]));
                        lemma_enc_list_push(vitems.take(i as int), vitems[i as int]);
                    }
                }
                proof {
                    assert(vitems.take(vitems.len() as int) =~= vitems);
                    assert(final(out)@ =~= old(out)@ + enc_resp(resp_view(*value)));
                }
            },
        }
    }

    /// Renders one reply value as its exact, spec-conformant wire bytes.
    pub fn serializer(value: RespValue) -> (r: Vec<u8>)
        ensures
            r@ == enc_resp(resp_view(value)),
    {
        let mut out: Vec<u8> = Vec::new();
        Self::encode_into(&value, &mut out);
        out
    }
}

/// First position at or after `i` that does not hold a decimal digit.
pub open spec fn digits_end(s: Seq<u8>, i: int) -> int
    decreases s.len() - i,
{
    if i < 0 || i >= s.len() {
        i
    } else if is_digit(s[i]) {
        digits_end(s, i + 1)
    } else {
        i
    }
}

/// The digit run `[i, digits_end)` is maximal.
pub proof fn lemma_digits_end(s: Seq<u8>, i: int)
    requires
        0 <= i <= s.len(),
    ensures
        i <= digits_end(s, i) <= s.len(),
        forall|m: int| i <= m < digits_end(s, i) ==> is_digit(#[trigger] s[m]),
        digits_end(s, i) < s.len() ==> !is_digit(s[digits_end(s, i)]),
    decreases s.len() - i,
{
    if i < s.len() && is_digit(s[i]) {
        lemma_digits_end(s, i + 1);
    }
}

/// Outcome of reading a `<sigil><digits>\r\n` header: more input needed,
/// malformed, or a count with the position after the terminator.
pub enum HeadDec {
    More,
    Bad,
    Val(int, int),
}

/// Outcome of reading one bulk string.
pub enum BulkDec {
    More,
    Bad,
    Val(Seq<u8>, int),
}

/// Outcome of reading a run of bulk strings, or a whole frame.
pub enum ListDec {
    More,
    Bad,
    Val(Seq<Seq<u8>>, int),
}

/// Reads `<sigil><digits>\r\n` at position `at`: the digit run must be
/// non-empty, terminated by CRLF, and denote a count a vector can hold;
/// a buffer that ends before the terminator is merely incomplete.
pub open spec fn dec_header(s: Seq<u8>, at: int, sigil: u8) -> HeadDec {
    if at >= s.len() {
        HeadDec::More
    } else if s[at] != sigil {
        HeadDec::Bad
    } else {
        let e = digits_end(s, at + 1);
        if e == at + 1 {
            if e >= s.len() {
                HeadDec::More
            } else {
                HeadDec::Bad
            }
        } else if e >= s.len() {
            HeadDec::More
        } else if s[e] != 13 {
            HeadDec::Bad
        } else if e + 1 >= s.len() {
            HeadDec::More
        } else if s[e + 1] != 10 {
            HeadDec::Bad
        } else if dec_val(s.subrange(at + 1, e)) > usize::MAX {
            HeadDec::Bad
        } else {
            HeadDec::Val(dec_val(s.subrange(at + 1, e)) as int, e + 2)
        }
    }
}

/// Reads `$<len>\r\n<data>\r\n` at position `at`.
pub open spec fn dec_bulk(s: Seq<u8>, at: int) -> BulkDec {
    match dec_header(s, at, 36) {
        HeadDec::More => BulkDec::More,
        HeadDec::Bad => BulkDec::Bad,
        HeadDec::Val(n, p) => {
            if p + n + 2 > s.len() {
                BulkDec::More
            } else if s[p + n] != 13 || s[p + n + 1] != 10 {
                BulkDec::Bad
            } else {
                BulkDec::Val(s.subrange(p, p + n), p + n + 2)
            }
        },
    }
}

/// Reads `k` bulk strings starting at `at`.
pub open spec fn dec_bulks(s: Seq<u8>, at: int, k: int) -> ListDec
    decreases k,
{
    if k <= 0 {
        ListDec::Val(Seq::empty(), at)
    } else {
        match dec_bulk(s, at) {
            BulkDec::More => ListDec::More,
            BulkDec::Bad => ListDec::Bad,
            BulkDec::Val(b, p) => match dec_bulks(s, p, k - 1) {
                ListDec::More => ListDec::More,
                ListDec::Bad => ListDec::Bad,
                ListDec::Val(bs, e) => ListDec::Val(seq![b] + bs, e),
            },
        }
    }
}

/// Reads one request frame: `*<n>\r\n` followed by `n` bulk strings.
pub open spec fn dec_frame(s: Seq<u8>) -> ListDec {
    match dec_header(s, 0, 42) {
        HeadDec::More => ListDec::More,
        HeadDec::Bad => ListDec::Bad,
        HeadDec::Val(n, p) => dec_bulks(s, p, n),
    }
}

/// The decoded frame as a value: an array of present bulk strings.
pub open spec fn frame_of(args: Seq<Seq<u8>>) -> RespV {
    RespV::Array(args.map_values(|a: Seq<u8>| RespV::BulkString(Some(a))))
}

/// A run of already-read bulk strings, prefixed onto a continuation.
pub open spec fn prepend_list(bs: Seq<Seq<u8>>, d: ListDec) -> ListDec {
    match d {
        ListDec::More => ListDec::More,
        ListDec::Bad => ListDec::Bad,
        ListDec::Val(rest, e) => ListDec::Val(bs + rest, e),
    }
}

/// A digit run that ends before the buffer does keeps its end when more
/// bytes arrive.
proof fn lemma_digits_end_ext(s: Seq<u8>, ext: Seq<u8>, i: int)
    requires
        0 <= i <= s.len(),
    ensures
        digits_end(s, i) < s.len() ==> digits_end(s + ext, i) == digits_end(s, i),
    decreases s.len() - i,
{
    if i < s.len() {
        assert((s + ext)[i] == s[i]);
        if is_digit(s[i]) {
            lemma_digits_end_ext(s, ext, i + 1);
        }
    }
}

/// A header that was read, or refused, keeps its outcome when more bytes
/// arrive.
proof fn lemma_header_ext(s: Seq<u8>, ext: Seq<u8>, at: int, sigil: u8)
    requires
        0 <= at,
    ensures
        dec_header(s, at, sigil) is Val ==> dec_header(s + ext, at, sigil) == dec_header(
            s,
            at,
            sigil,
        ),
        dec_header(s, at, sigil) is Bad ==> dec_header(s + ext, at, sigil) is Bad,
{
    let t = s + ext;
    if at < s.len() {
        assert(t[at] == s[at]);
        if s[at] == sigil {
            lemma_digits_end(s, at + 1);
            lemma_digits_end_ext(s, ext, at + 1);
            let e = digits_end(s, at + 1);
            if e < s.len() {
                assert(t[e] == s[e]);
                if e + 1 < s.len() {
                    assert(t[e + 1] == s[e + 1]);
                }
                if e > at + 1 && s[e] == 13 && e + 1 < s.len() && s[e + 1] == 10 {
                    assert(t.subrange(at + 1, e) =~= s.subrange(at + 1, e));
                }
            }
        }
    }
}

/// A bulk string that was read, or refused, keeps its outcome when more
/// bytes arrive.
proof fn lemma_bulk_ext(s: Seq<u8>, ext: Seq<u8>, at: int)
    requires
        0 <= at,
    ensures
        dec_bulk(s, at) is Val ==> dec_bulk(s + ext, at) == dec_bulk(s, at),
        dec_bulk(s, at) is Bad ==> dec_bulk(s + ext, at) is Bad,
{
    let t = s + ext;
    lemma_header_ext(s, ext, at, 36);
    if let HeadDec::Val(n, p) = dec_header(s, at, 36) {
        assert(0 <= p <= s.len()) by {
            lemma_header_bounds(s, at, 36);
        }
        if p + n + 2 <= s.len() {
            assert(t[p + n] == s[p + n]);
            assert(t[p + n + 1] == s[p + n + 1]);
            assert(t.subrange(p, p + n) =~= s.subrange(p, p + n));
        }
    }
}

/// A read header lands within the buffer, past its start.
proof fn lemma_header_bounds(s: Seq<u8>, at: int, sigil: u8)
    requires
        0 <= at,
    ensures
        dec_header(s, at, sigil) matches HeadDec::Val(n, p) ==> (at + 3 <= p <= s.len() && n >= 0),
{
    if at < s.len() {
        lemma_digits_end(s, at + 1);
    }
}

/// A read bulk string lands within the buffer, past its start.
proof fn lemma_bulk_bounds(s: Seq<u8>, at: int)
    requires
        0 <= at,
    ensures
        dec_bulk(s, at) matches BulkDec::Val(b, p) ==> at + 6 <= p <= s.len(),
{
    lemma_header_bounds(s, at, 36);
}

/// A read run of bulk strings lands within the buffer.
proof fn lemma_bulks_bounds(s: Seq<u8>, at: int, k: int)
    requires
        0 <= at <= s.len(),
    ensures
        dec_bulks(s, at, k) matches ListDec::Val(bs, e) ==> (at <= e <= s.len() && bs.len()
            == (if k >= 0 { k } else { 0 })),
    decreases k,
{
    if k > 0 {
        lemma_bulk_bounds(s, at);
        if let BulkDec::Val(b, p) = dec_bulk(s, at) {
            lemma_bulks_bounds(s, p, k - 1);
        }
    }
}

/// A run of bulk strings that was read, or refused, keeps its outcome
/// when more bytes arrive.
proof fn lemma_bulks_ext(s: Seq<u8>, ext: Seq<u8>, at: int, k: int)
    requires
        0 <= at <= s.len(),
    ensures
        dec_bulks(s, at, k) is Val ==> dec_bulks(s + ext, at, k) == dec_bulks(s, at, k),
        dec_bulks(s, at, k) is Bad ==> dec_bulks(s + ext, at, k) is Bad,
    decreases k,
{
    if k > 0 {
        lemma_bulk_ext(s, ext, at);
        match dec_bulk(s, at) {
            BulkDec::Val(b, p) => {
                lemma_bulk_bounds(s, at);
                lemma_bulks_ext(s, ext, p, k - 1);
            },
            _ => {},
        }
    }
}

/// A decoded frame, and a framing error, survive the arrival of further
/// bytes: feeding the codec byte by byte yields the same frames as
/// feeding it everything at once.
pub proof fn lemma_frame_ext(s: Seq<u8>, ext: Seq<u8>)
    ensures
        dec_frame(s) is Val ==> dec_frame(s + ext) == dec_frame(s),
        dec_frame(s) is Bad ==> dec_frame(s + ext) is Bad,
{
    lemma_header_ext(s, ext, 0, 42);
    if let HeadDec::Val(n, p) = dec_header(s, 0, 42) {
        lemma_header_bounds(s, 0, 42);
        lemma_bulks_ext(s, ext, p, n);
    }
}

/// A decoded frame consumes at least one byte and never more than the
/// buffer holds.
pub proof fn lemma_frame_bounds(s: Seq<u8>)
    ensures
        dec_frame(s) matches ListDec::Val(args, e) ==> 0 < e <= s.len(),
{
    lemma_header_bounds(s, 0, 42);
    if let HeadDec::Val(n, p) = dec_header(s, 0, 42) {
        lemma_bulks_bounds(s, p, n);
    }
}

/// All complete frames drained off the front of a buffer, and the
/// undecodable or incomplete rest.
pub open spec fn drain(s: Seq<u8>) -> (Seq<Seq<Seq<u8>>>, Seq<u8>)
    decreases s.len(),
{
    match dec_frame(s) {
        ListDec::Val(args, e) => if 0 < e <= s.len() {
            let rec = drain(s.subrange(e, s.len() as int));
            (seq![args] + rec.0, rec.1)
        } else {
            (Seq::empty(), s)
        },
        _ => (Seq::empty(), s),
    }
}

/// Chunked delivery is transparent: draining `s1`, then draining what
/// remained with `s2` appended, yields exactly the frames of `s1 + s2`,
/// in order, with the same rest.
pub proof fn lemma_chunked_drain(s1: Seq<u8>, s2: Seq<u8>)
    ensures
        ({
            let first = drain(s1);
            let cont = drain(first.1 + s2);
            drain(s1 + s2) == (first.0 + cont.0, cont.1)
        }),
    decreases s1.len(),
{
    let first = drain(s1);
    let cont = drain(first.1 + s2);
    lemma_frame_bounds(s1);
    lemma_frame_ext(s1, s2);
    match dec_frame(s1) {
        ListDec::Val(args, e) => {
            assert(0 < e <= s1.len());
            let tail1 = s1.subrange(e, s1.len() as int);
            assert((s1 + s2).subrange(e, (s1 + s2).len() as int) =~= tail1 + s2);
            lemma_chunked_drain(tail1, s2);
            let firstt = drain(tail1);
            assert(first == (seq![args] + firstt.0, firstt.1));
            assert(drain(tail1 + s2) == (firstt.0 + cont.0, cont.1));
            assert(dec_frame(s1 + s2) == ListDec::Val(args, e));
            lemma_frame_bounds(s1 + s2);
            assert(drain(s1 + s2) == (seq![args] + drain(tail1 + s2).0, drain(tail1 + s2).1));
            assert(seq![args] + (firstt.0 + cont.0) =~= (seq![args] + firstt.0) + cont.0);
        },
        _ => {
            assert(first == (Seq::<Seq<Seq<u8>>>::empty(), s1));
            assert(first.1 + s2 == s1 + s2);
            assert(Seq::<Seq<Seq<u8>>>::empty() + cont.0 =~= cont.0);
        },
    }
}

/// The wire forms of a run of bulk strings.
pub open spec fn enc_bulks(args: Seq<Seq<u8>>) -> Seq<u8>
    decreases args.len(),
{
    if args.len() == 0 {
        Seq::empty()
    } else {
        enc_bulk(args[0]) + enc_bulks(args.drop_first())
    }
}

/// A frame's body encodes as the run of its bulk strings.
proof fn lemma_enc_frame_body(args: Seq<Seq<u8>>)
    ensures
        enc_list(args.map_values(|a: Seq<u8>| RespV::BulkString(Some(a)))) == enc_bulks(args),
    decreases args.len(),
{
    let mapped = args.map_values(|a: Seq<u8>| RespV::BulkString(Some(a)));
    if args.len() > 0 {
        lemma_enc_frame_body(args.drop_first());
        assert(mapped[0] == RespV::BulkString(Some(args[0])));
        assert(mapped.drop_first() =~= args.drop_first().map_values(
            |a: Seq<u8>| RespV::BulkString(Some(a)),
        ));
        assert(enc_resp(mapped[0]) == enc_bulk(args[0]));
    }
}

/// A maximal digit run: all digits up to `j`, then a non-digit.
proof fn lemma_digits_end_exact(s: Seq<u8>, i: int, j: int)
    requires
        0 <= i <= j < s.len(),
        forall|c: int| i <= c < j ==> is_digit(#[trigger] s[c]),
        !is_digit(s[j]),
    ensures
        digits_end(s, i) == j,
    decreases j - i,
{
    if i < j {
        lemma_digits_end_exact(s, i + 1, j);
    }
}

/// Reading a header off its own encoding: `<sigil><digits of n>\r\n`
/// followed by anything yields `n` and the position after the
/// terminator.
proof fn lemma_header_round(n: nat, sigil: u8, rest: Seq<u8>)
    requires
        n <= usize::MAX,
        !is_digit(sigil),
    ensures
        ({
            let h = seq![sigil] + dec_digits(n) + crlf();
            dec_header(h + rest, 0, sigil) == HeadDec::Val(n as int, h.len() as int)
        }),
{
    let d = dec_digits(n);
    let h = seq![sigil] + d + crlf();
    let s = h + rest;
    lemma_dec_digits_are_digits(n);
    lemma_dec_val_of_digits(n);
    assert(s[0] == sigil);
    let j = 1 + d.len() as int;
    assert forall|c: int| 1 <= c < j implies is_digit(#[trigger] s[c]) by {
        assert(s[c] == d[c - 1]);
    }
    assert(s[j] == 13);
    assert(!is_digit(s[j]));
    lemma_digits_end_exact(s, 1, j);
    assert(s[j + 1] == 10);
    assert(s.subrange(1, j) =~= d);
    assert(h.len() == j + 2);
}

/// Reading one bulk string off its own encoding.
proof fn lemma_bulk_round(b: Seq<u8>, rest: Seq<u8>)
    requires
        b.len() <= usize::MAX,
    ensures
        dec_bulk(enc_bulk(b) + rest, 0) == BulkDec::Val(b, enc_bulk(b).len() as int),
{
    let h = seq![36u8] + dec_digits(b.len()) + crlf();
    let s = enc_bulk(b) + rest;
    assert(enc_bulk(b) =~= h + (b + crlf()));
    assert(s =~= h + (b + crlf() + rest));
    lemma_header_round(b.len(), 36, b + crlf() + rest);
    let p = h.len() as int;
    assert(dec_header(s, 0, 36) == HeadDec::Val(b.len() as int, p));
    assert(p + b.len() + 2 <= s.len());
    assert(s[p + b.len()] == 13);
    assert(s[p + b.len() + 1] == 10);
    assert(s.subrange(p, p + b.len()) =~= b);
    assert(enc_bulk(b).len() == p + b.len() + 2);
}

/// Reading a run of bulk strings off its own encoding.
proof fn lemma_bulks_round(args: Seq<Seq<u8>>, at: int, rest: Seq<u8>, s: Seq<u8>)
    requires
        forall|i: int| 0 <= i < args.len() ==> (#[trigger] args[i]).len() <= usize::MAX,
        0 <= at <= s.len(),
        s.subrange(at, s.len() as int) == enc_bulks(args) + rest,
    ensures
        dec_bulks(s, at, args.len() as int) == ListDec::Val(
            args,
            at + enc_bulks(args).len(),
        ),
    decreases args.len(),
{
    let suffix = s.subrange(at, s.len() as int);
    if args.len() == 0 {
        assert(enc_bulks(args) =~= Seq::<u8>::empty());
        assert(args =~= Seq::<Seq<u8>>::empty());
        assert(dec_bulks(s, at, 0) == ListDec::Val(Seq::<Seq<u8>>::empty(), at));
    } else {
        let b = args[0];
        assert(b.len() <= usize::MAX);
        assert(forall|i: int|
            0 <= i < args.drop_first().len() ==> args.drop_first()[i] == args[i + 1]);
        let tail_enc = enc_bulks(args.drop_first());
        assert(suffix =~= enc_bulk(b) + (tail_enc + rest));
        lemma_bulk_round(b, tail_enc + rest);
        assert(dec_bulk(suffix, 0) == BulkDec::Val(b, enc_bulk(b).len() as int));
        lemma_dec_bulk_shift(s, at);
        assert(dec_bulk(s, at) == BulkDec::Val(b, at + enc_bulk(b).len()));
        let p = at + enc_bulk(b).len() as int;
        assert(suffix.len() == enc_bulk(b).len() + tail_enc.len() + rest.len());
        assert(p <= s.len());
        assert(s.subrange(p, s.len() as int) =~= tail_enc + rest) by {
            assert(enc_bulk(b).len() + tail_enc.len() + rest.len() == suffix.len());
            assert forall|c: int| 0 <= c < s.len() - p implies s.subrange(p, s.len() as int)[c]
                == (tail_enc + rest)[c] by {
                assert(s.subrange(p, s.len() as int)[c] == suffix[enc_bulk(b).len() + c]);
            }
        }
        lemma_bulks_round(args.drop_first(), p, rest, s);
        assert(dec_bulks(s, p, args.drop_first().len() as int) == ListDec::Val(
            args.drop_first(),
            p + tail_enc.len(),
        ));
        assert(args.drop_first().len() as int == args.len() as int - 1);
        assert(dec_bulks(s, at, args.len() as int) == ListDec::Val(
            seq![b] + args.drop_first(),
            p + tail_enc.len(),
        ));
        assert(seq![b] + args.drop_first() =~= args);
        assert(enc_bulks(args).len() == enc_bulk(b).len() + tail_enc.len());
        assert(at + enc_bulks(args).len() == p + tail_enc.len());
    }
}

/// Decoding at an offset reads the suffix from its start.
proof fn lemma_dec_bulk_shift(s: Seq<u8>, at: int)
    requires
        0 <= at <= s.len(),
    ensures
        ({
            let suffix = s.subrange(at, s.len() as int);
            match dec_bulk(suffix, 0) {
                BulkDec::More => dec_bulk(s, at) is More,
                BulkDec::Bad => dec_bulk(s, at) is Bad,
                BulkDec::Val(b, p) => dec_bulk(s, at) == BulkDec::Val(b, at + p),
            }
        }),
{
    let suffix = s.subrange(at, s.len() as int);
    if suffix.len() >= 1 {
        lemma_digits_end_shift(s, at, at + 1);
        lemma_digits_end(suffix, 1);
        assert(suffix[0] == s[at]);
        let e = digits_end(suffix, 1);
        if 1 < e < suffix.len() {
            assert(suffix[e] == s[at + e]);
            if e + 1 < suffix.len() {
                assert(suffix[e + 1] == s[at + e + 1]);
            }
            assert(suffix.subrange(1, e) =~= s.subrange(at + 1, at + e));
        }
        if e == 1 && e < suffix.len() {
            assert(suffix[e] == s[at + e]);
        }
        match dec_header(suffix, 0, 36) {
            HeadDec::Val(n, p) => {
                lemma_header_bounds(suffix, 0, 36);
                if p + n + 2 <= suffix.len() {
                    assert(suffix[p + n] == s[at + p + n]);
                    assert(suffix[p + n + 1] == s[at + p + n + 1]);
                    assert(suffix.subrange(p, p + n) =~= s.subrange(at + p, at + p + n));
                }
            },
            _ => {},
        }
    }
}

/// A digit run in a suffix is the digit run at the offset.
proof fn lemma_digits_end_shift(s: Seq<u8>, at: int, i: int)
    requires
        0 <= at <= s.len(),
        at <= i <= s.len(),
    ensures
        digits_end(s, i) == at + digits_end(s.subrange(at, s.len() as int), i - at),
    decreases s.len() - i,
{
    let suffix = s.subrange(at, s.len() as int);
    if i < s.len() {
        assert(suffix[i - at] == s[i]);
        if is_digit(s[i]) {
            lemma_digits_end_shift(s, at, i + 1);
        }
    }
}

/// Decoding is a strict partial inverse of encoding: the wire form of a
/// request frame, followed by anything (the start of a pipelined next
/// frame), decodes to exactly that frame, consuming exactly its bytes.
pub proof fn lemma_decode_of_encode(args: Seq<Seq<u8>>, rest: Seq<u8>)
    requires
        args.len() <= usize::MAX,
        forall|i: int| 0 <= i < args.len() ==> (#[trigger] args[i]).len() <= usize::MAX,
    ensures
        dec_frame(enc_resp(frame_of(args)) + rest) == ListDec::Val(
            args,
            enc_resp(frame_of(args)).len() as int,
        ),
{
    let mapped = args.map_values(|a: Seq<u8>| RespV::BulkString(Some(a)));
    lemma_enc_frame_body(args);
    let h = seq![42u8] + dec_digits(args.len()) + crlf();
    let enc = enc_resp(frame_of(args));
    assert(enc =~= h + enc_bulks(args));
    let s = enc + rest;
    assert(s =~= h + (enc_bulks(args) + rest));
    lemma_header_round(args.len(), 42, enc_bulks(args) + rest);
    let p = h.len() as int;
    assert(dec_header(s, 0, 42) == HeadDec::Val(args.len() as int, p));
    assert(s.subrange(p, s.len() as int) =~= enc_bulks(args) + rest);
    lemma_bulks_round(args, p, rest, s);
    assert(enc.len() == p + enc_bulks(args).len());
}

/// Outcome of one exec decoding step.
enum Step<T> {
    More,
    Bad,
    Val(T, usize),
}

impl RespParser {
    /// First position at or after `i` without a decimal digit.
    fn find_digits_end(s: &[u8], i: usize) -> (j: usize)
        requires
            i <= s@.len(),
        ensures
            j == digits_end(s@, i as int),
    {
        let mut j = i;
        loop
            invariant
                i <= j <= s@.len(),
                digits_end(s@, i as int) == digits_end(s@, j as int),
            ensures
                i <= j <= s@.len(),
                digits_end(s@, i as int) == digits_end(s@, j as int),
                j == s@.len() || !is_digit(s@[j as int]),
            decreases s@.len() - j,
        {
            if j == s.len() {
                break ;
            }
            let b = s[j];
            if !(48 <= b && b <= 57) {
                break ;
            }
            j = j + 1;
        }
        j
    }

    /// Reads a `<sigil><digits>\r\n` header.
    #[verifier::loop_isolation(false)]
    fn parse_header(s: &[u8], at: usize, sigil: u8) -> (r: Step<usize>)
        requires
            at <= s@.len(),
        ensures
            match r {
                Step::More => dec_header(s@, at as int, sigil) is More,
                Step::Bad => dec_header(s@, at as int, sigil) is Bad,
                Step::Val(v, p) => dec_header(s@, at as int, sigil) == HeadDec::Val(
                    v as int,
                    p as int,
                ) && at < p <= s@.len(),
            },
    {
        if at >= s.len() {
            return Step::More;
        }
        if s[at] != sigil {
            return Step::Bad;
        }
        let e = Self::find_digits_end(s, at + 1);
        proof {
            lemma_digits_end(s@, at + 1);
        }
        if e == at + 1 {
            if e >= s.len() {
                return Step::More;
            } else {
                return Step::Bad;
            }
        }
        if e >= s.len() {
            return Step::More;
        }
        if s[e] != 13 {
            return Step::Bad;
        }
        if e + 1 >= s.len() {
            return Step::More;
        }
        if s[e + 1] != 10 {
            return Step::Bad;
        }
        match dec_run_value(s, at + 1, e) {
            Some(v) => Step::Val(v, e + 2),
            None => Step::Bad,
        }
    }

    /// Reads one `$<len>\r\n<data>\r\n` bulk string.
    #[verifier::loop_isolation(false)]
    fn parse_bulk(s: &[u8], at: usize) -> (r: Step<Vec<u8>>)
        requires
            at <= s@.len(),
        ensures
            match r {
                Step::More => dec_bulk(s@, at as int) is More,
                Step::Bad => dec_bulk(s@, at as int) is Bad,
                Step::Val(b, p) => dec_bulk(s@, at as int) == BulkDec::Val(b@, p as int) && at < p
                    <= s@.len(),
            },
    {
        match Self::parse_header(s, at, 36) {
            Step::More => Step::More,
            Step::Bad => Step::Bad,
            Step::Val(n, p) => {
                let rem = s.len() - p;
                if rem < 2 || n > rem - 2 {
                    return Step::More;
                }
                if s[p + n] != 13 {
                    return Step::Bad;
                }
                if s[p + n + 1] != 10 {
                    return Step::Bad;
                }
                let data = vstd::slice::slice_to_vec(vstd::slice::slice_subrange(s, p, p + n));
                Step::Val(data, p + n + 2)
            },
        }
    }

    /// Decodes one request frame from the front of `buf`.
    ///
    /// A complete frame is removed from the buffer and returned; a buffer
    /// that does not yet hold a complete frame is left intact and yields
    /// `Ok(None)`; malformed framing yields an error and leaves the
    /// buffer intact.
    #[verifier::loop_isolation(false)]
    pub fn parse(buf: &mut Vec<u8>) -> (r: Result<Option<RespValue>, ProtocolError>)
        ensures
            dec_frame(old(buf)@) is More ==> (r matches Ok(o) && o is None && final(buf)@ == old(
                buf,
            )@),
            dec_frame(old(buf)@) is Bad ==> (r is Err && final(buf)@ == old(buf)@),
            dec_frame(old(buf)@) matches ListDec::Val(args, e) ==> (r matches Ok(o) && o matches Some(
                f,
            ) && resp_view(f) == frame_of(args) && final(buf)@ == old(buf)@.subrange(
                e,
                old(buf)@.len() as int,
            )),
    {
        let header = Self::parse_header(buf.as_slice(), 0, 42);
        match header {
            Step::More => Ok(None),
            Step::Bad => Err(ProtocolError),
            Step::Val(n, p) => {
                let ghost s0 = buf@;
                let mut items: Vec<RespValue> = Vec::new();
                let ghost mut args: Seq<Seq<u8>> = Seq::empty();
                let mut at = p;
                let mut i: usize = 0;
                proof {
                    if let ListDec::Val(rest, e) = dec_bulks(s0, p as int, n as int) {
                        assert(Seq::<Seq<u8>>::empty() + rest =~= rest);
                    }
                }
                while i < n
                    invariant
                        0 <= i <= n,
                        at <= buf@.len(),
                        buf@ == s0,
                        dec_bulks(s0, p as int, n as int) == prepend_list(
                            args,
                            dec_bulks(s0, at as int, n - i),
                        ),
                        args.len() == i,
                        items@.len() == i,
                        forall|j: int|
                            0 <= j < i ==> resp_view(#[trigger] items@[j]) == RespV::BulkString(
                                Some(args[j]),
                            ),
                    decreases n - i,
                {
                    let step = Self::parse_bulk(buf.as_slice(), at);
                    match step {
                        Step::More => {
                            return Ok(None);
                        },
                        Step::Bad => {
                            return Err(ProtocolError);
                        },
                        Step::Val(b, p2) => {
                            let ghost bv = b@;
                            proof {
                                if let ListDec::Val(rest, e) = dec_bulks(s0, p2 as int, n - i - 1) {
                                    assert(dec_bulks(s0, at as int, n - i) == ListDec::Val(
                                        seq![bv] + rest,
                                        e,
                                    ));
                                    assert(args + (seq![bv] + rest) =~= args.push(bv) + rest);
                                }
                            }
                            items.push(RespValue::BulkString(Some(b)));
                            proof {
                                args = args.push(bv);
                            }
                            at = p2;
                            i = i + 1;
                        },
                    }
                }
                proof {
                    assert(dec_bulks(s0, at as int, 0) == ListDec::Val(Seq::<Seq<u8>>::empty(), at as int));
                    assert(args + Seq::<Seq<u8>>::empty() =~= args);
                    assert(dec_bulks(s0, p as int, n as int) == ListDec::Val(args, at as int));
                }
                let tail = buf.split_off(at);
                *buf = tail;
                let frame = RespValue::Array(items);
                proof {
                    lemma_view_list(items@);
                    assert forall|j: int| 0 <= j < items@.len() implies resp_view_list(items@)[j]
                        == args.map_values(|a: Seq<u8>| RespV::BulkString(Some(a)))[j] by {
                        assert(resp_view(items@[j]) == RespV::BulkString(Some(args[j])));
                    }
                    assert(resp_view_list(items@) =~= args.map_values(
                        |a: Seq<u8>| RespV::BulkString(Some(a)),
                    ));
                }
                Ok(Some(frame))
            },
        }
    }
}

} // verus!
