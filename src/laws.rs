//! Laws of the codec, proved over the models that the functions' contracts
//! use.

use vstd::prelude::*;
use vstd::utf8::*;

use crate::de::{Drained, StreamState, drain, fed, feed_error, settled};
use crate::decimal::{decimal, lemma_signed_decimal_round_trip, signed_decimal};
use crate::error::ErrorCode;
use crate::value::SpecValue;
use crate::wire::{
    Parsed, RESP_MAX_SIZE, bulk_value, crlf, crlf_at, crlf_from, encode_items, encode_value,
    lemma_crlf_from, lemma_parse_extend, lemma_parse_progress, line, parse_items, parse_value,
};

verus! {

/// `b` holds no `\r\n`.
pub open spec fn no_crlf(b: Seq<u8>) -> bool {
    forall|j: int| !#[trigger] crlf_at(b, j)
}

/// `v` goes over the wire and back without loss to a decoder in the given
/// mode: simple strings and errors hold no `\r\n`, integers are `i64`s,
/// lengths and counts stay below 512 MiB, and a text-mode decoder only meets
/// raw payloads that are UTF-8.
pub open spec fn lossless(v: SpecValue, buf_bulk: bool) -> bool
    decreases v,
{
    match v {
        SpecValue::String(t) => no_crlf(encode_utf8(t)),
        SpecValue::Error(t) => no_crlf(encode_utf8(t)),
        SpecValue::Integer(n) => i64::MIN <= n <= i64::MAX,
        SpecValue::Bulk(t) => encode_utf8(t).len() < RESP_MAX_SIZE,
        SpecValue::BufBulk(b) => b.len() < RESP_MAX_SIZE && (buf_bulk || valid_utf8(b)),
        SpecValue::Array(items) => items.len() < RESP_MAX_SIZE && forall|i: int|
            0 <= i < items.len() ==> lossless(#[trigger] items[i], buf_bulk),
        _ => true,
    }
}

/// What a decoder in the given mode makes of `v`'s encoding: `$` payloads
/// come back as raw bytes in `buf_bulk` mode and as text otherwise.
pub open spec fn decoded(v: SpecValue, buf_bulk: bool) -> SpecValue
    decreases v,
{
    match v {
        SpecValue::Bulk(t) => if buf_bulk {
            SpecValue::BufBulk(encode_utf8(t))
        } else {
            v
        },
        SpecValue::BufBulk(b) => if buf_bulk {
            v
        } else {
            SpecValue::Bulk(decode_utf8(b))
        },
        SpecValue::Array(items) => SpecValue::Array(
            Seq::new(
                items.len(),
                |i: int|
                    if 0 <= i < items.len() {
                        decoded(items[i], buf_bulk)
                    } else {
                        SpecValue::Null
                    },
            ),
        ),
        _ => v,
    }
}

/// `v` holds no raw `BufBulk` payload.
pub open spec fn no_buf_bulk(v: SpecValue) -> bool
    decreases v,
{
    match v {
        SpecValue::BufBulk(_) => false,
        SpecValue::Array(items) => forall|i: int|
            0 <= i < items.len() ==> no_buf_bulk(#[trigger] items[i]),
        _ => true,
    }
}

/// A line whose body holds no `\r\n` ends at its own terminator, whatever
/// follows it.
proof fn lemma_line(marker: u8, body: Seq<u8>, rest: Seq<u8>)
    requires
        no_crlf(body),
    ensures
        crlf_from(line(marker, body) + rest, 1) == Some(1 + body.len() as int),
        (line(marker, body) + rest).subrange(1, 1 + body.len() as int) == body,
        (line(marker, body) + rest)[0] == marker,
        (line(marker, body) + rest).skip(3 + body.len() as int) == rest,
{
    let s = line(marker, body) + rest;
    let end: int = 1 + body.len() as int;
    assert(s[end] == 13u8 && s[end + 1] == 10u8);
    assert(crlf_at(s, end));
    lemma_crlf_from(s, 1);
    assert forall|k: int| 1 <= k < end implies !#[trigger] crlf_at(s, k) by {
        if k < end - 1 {
            assert(s[k] == body[k - 1] && s[k + 1] == body[k]);
            assert(!crlf_at(body, k - 1));
        } else {
            assert(s[k + 1] == 13u8);
        }
    }
    if let Some(j) = crlf_from(s, 1) {
        if j > end {
            assert(!crlf_at(s, end));
        } else if j < end {
            assert(!crlf_at(s, j));
        }
    }
    assert(s.subrange(1, end) =~= body);
    assert(s.skip(end + 2) =~= rest);
}

/// Decimal text holds no `\r\n`.
proof fn lemma_signed_decimal_no_crlf(n: int)
    ensures
        no_crlf(signed_decimal(n)),
{
    lemma_signed_decimal_round_trip(n);
    let t = signed_decimal(n);
    assert forall|j: int| !#[trigger] crlf_at(t, j) by {
        if 0 <= j < t.len() {
            assert(t[j] != 13u8);
        }
    }
}

/// The encodings of `items`, read from the front.
proof fn lemma_encode_items_front(items: Seq<SpecValue>)
    requires
        items.len() > 0,
    ensures
        encode_items(items) == encode_value(items[0]) + encode_items(items.drop_first()),
    decreases items.len(),
{
    if items.len() == 1 {
        assert(items.drop_last() =~= Seq::<SpecValue>::empty());
        assert(items.drop_first() =~= Seq::<SpecValue>::empty());
        assert(encode_items(items.drop_last()) =~= Seq::<u8>::empty());
        assert(encode_items(items.drop_first()) =~= Seq::<u8>::empty());
        assert(encode_items(items) =~= encode_value(items[0]) + encode_items(items.drop_first()));
    } else {
        lemma_encode_items_front(items.drop_last());
        assert(items.drop_last().drop_first() =~= items.drop_first().drop_last());
        assert(items.drop_first().last() == items.last());
        assert(encode_items(items) =~= encode_value(items[0]) + encode_items(items.drop_first()));
    }
}

/// A `+` or `-` line holding `text` parses back to `text`.
proof fn lemma_text_line_round_trip(v: SpecValue, rest: Seq<u8>, buf_bulk: bool)
    requires
        v is String || v is Error,
        lossless(v, buf_bulk),
    ensures
        parse_value(encode_value(v) + rest, buf_bulk) == Parsed::Done(
            v,
            encode_value(v).len() as int,
        ),
{
    let (marker, t) = match v {
        SpecValue::String(t) => (43u8, t),
        _ => (45u8, v->Error_0),
    };
    encode_utf8_valid_utf8(t);
    encode_utf8_decode_utf8(t);
    lemma_line(marker, encode_utf8(t), rest);
}

/// A `:` line, or a null written as `$-1` or `*-1`, parses back.
proof fn lemma_number_line_round_trip(v: SpecValue, rest: Seq<u8>, buf_bulk: bool)
    requires
        v is Integer || v is Null || v is NullArray,
        lossless(v, buf_bulk),
    ensures
        parse_value(encode_value(v) + rest, buf_bulk) == Parsed::Done(
            v,
            encode_value(v).len() as int,
        ),
{
    let (marker, n) = match v {
        SpecValue::Integer(n) => (58u8, n),
        SpecValue::Null => (36u8, -1),
        _ => (42u8, -1),
    };
    if !(v is Integer) {
        assert(signed_decimal(-1) =~= seq![45u8, 49u8]);
    }
    assert(encode_value(v) =~= line(marker, signed_decimal(n)));
    lemma_signed_decimal_no_crlf(n);
    lemma_signed_decimal_round_trip(n);
    lemma_line(marker, signed_decimal(n), rest);
}

/// A `$` element parses back, shaped by the decoder's mode.
proof fn lemma_bulk_round_trip(v: SpecValue, rest: Seq<u8>, buf_bulk: bool)
    requires
        v is Bulk || v is BufBulk,
        lossless(v, buf_bulk),
    ensures
        parse_value(encode_value(v) + rest, buf_bulk) == Parsed::Done(
            decoded(v, buf_bulk),
            encode_value(v).len() as int,
        ),
{
    let payload = match v {
        SpecValue::Bulk(t) => encode_utf8(t),
        _ => v->BufBulk_0,
    };
    if let SpecValue::Bulk(t) = v {
        encode_utf8_valid_utf8(t);
        encode_utf8_decode_utf8(t);
    }
    let s = encode_value(v) + rest;
    let len = payload.len() as int;
    assert(signed_decimal(len) == decimal(len as nat));
    lemma_signed_decimal_no_crlf(len);
    lemma_signed_decimal_round_trip(len);
    let tail = payload + crlf() + rest;
    assert(s =~= line(36u8, decimal(len as nat)) + tail);
    lemma_line(36u8, decimal(len as nat), tail);
    let next: int = 3 + decimal(len as nat).len() as int;
    assert(s.subrange(next, next + len) =~= payload);
    assert(s[next + len] == 13u8 && s[next + len + 1] == 10u8);
    assert(crlf_at(s, next + len));
    assert(bulk_value(payload, buf_bulk) matches Parsed::Done(w, _) && w == decoded(v, buf_bulk));
}

/// Round trip: a decoder reads the encoding of a lossless value back as
/// that value (with `$` payloads shaped by the decoder's mode), and consumes
/// exactly the encoding, whatever bytes follow it.
pub proof fn lemma_round_trip(v: SpecValue, rest: Seq<u8>, buf_bulk: bool)
    requires
        lossless(v, buf_bulk),
    ensures
        parse_value(encode_value(v) + rest, buf_bulk) == Parsed::Done(
            decoded(v, buf_bulk),
            encode_value(v).len() as int,
        ),
    decreases v, 0int,
{
    match v {
        SpecValue::String(_) | SpecValue::Error(_) => lemma_text_line_round_trip(v, rest, buf_bulk),
        SpecValue::Integer(_) | SpecValue::Null | SpecValue::NullArray => {
            lemma_number_line_round_trip(v, rest, buf_bulk)
        },
        SpecValue::Bulk(_) | SpecValue::BufBulk(_) => lemma_bulk_round_trip(v, rest, buf_bulk),
        SpecValue::Array(items) => {
            let s = encode_value(v) + rest;
            let n = items.len() as int;
            assert(signed_decimal(n) == decimal(n as nat));
            lemma_signed_decimal_no_crlf(n);
            lemma_signed_decimal_round_trip(n);
            let tail = encode_items(items) + rest;
            assert(s =~= line(42u8, decimal(n as nat)) + tail);
            lemma_line(42u8, decimal(n as nat), tail);
            lemma_items_round_trip(items, rest, buf_bulk);
            assert(decoded(v, buf_bulk)->Array_0 =~= Seq::new(
                items.len(),
                |i: int| decoded(items[i], buf_bulk),
            ));
        },
    }
}

/// `lemma_round_trip` for the encodings of several values in a row.
pub proof fn lemma_items_round_trip(items: Seq<SpecValue>, rest: Seq<u8>, buf_bulk: bool)
    requires
        forall|i: int| 0 <= i < items.len() ==> lossless(#[trigger] items[i], buf_bulk),
    ensures
        parse_items(encode_items(items) + rest, items.len(), buf_bulk) == Parsed::Done(
            Seq::new(items.len(), |i: int| decoded(items[i], buf_bulk)),
            encode_items(items).len() as int,
        ),
    decreases items, 1int,
{
    if items.len() == 0 {
        assert(encode_items(items) + rest =~= rest);
        assert(Seq::new(items.len(), |i: int| decoded(items[i], buf_bulk)) =~= Seq::<
            SpecValue,
        >::empty());
    } else {
        let tail = items.drop_first();
        lemma_encode_items_front(items);
        let later = encode_items(tail) + rest;
        let s = encode_items(items) + rest;
        assert(s =~= encode_value(items[0]) + later);
        lemma_round_trip(items[0], later, buf_bulk);
        lemma_parse_progress(s, buf_bulk);
        let k = encode_value(items[0]).len() as int;
        assert(s.skip(k) =~= later);
        assert forall|i: int| 0 <= i < tail.len() implies lossless(#[trigger] tail[i], buf_bulk) by {
            assert(tail[i] == items[i + 1]);
        }
        lemma_items_round_trip(tail, rest, buf_bulk);
        assert(seq![decoded(items[0], buf_bulk)] + Seq::new(
            tail.len(),
            |i: int| decoded(tail[i], buf_bulk),
        ) =~= Seq::new(items.len(), |i: int| decoded(items[i], buf_bulk)));
    }
}

/// In text mode, a value without raw payloads is its own decoding.
proof fn lemma_decoded_text(v: SpecValue)
    requires
        no_buf_bulk(v),
    ensures
        decoded(v, false) == v,
    decreases v,
{
    if let SpecValue::Array(items) = v {
        assert forall|i: int| 0 <= i < items.len() implies decoded(items[i], false)
            == items[i] by {
            lemma_decoded_text(items[i]);
        }
        assert(decoded(v, false)->Array_0 =~= items);
    }
}

/// Round trip in text mode: a lossless value without raw `BufBulk`
/// payloads decodes from its encoding to exactly itself.
pub proof fn lemma_round_trip_text(v: SpecValue)
    requires
        lossless(v, false),
        no_buf_bulk(v),
    ensures
        parse_value(encode_value(v), false) == Parsed::Done(v, encode_value(v).len() as int),
{
    lemma_round_trip(v, Seq::empty(), false);
    assert(encode_value(v) + Seq::<u8>::empty() =~= encode_value(v));
    lemma_decoded_text(v);
}

/// Parsing `s + x` value after value continues from where parsing `s`
/// stopped, when parsing `s` met no error.
proof fn lemma_drain_concat(s: Seq<u8>, x: Seq<u8>, buf_bulk: bool)
    requires
        drain(s, buf_bulk).error is None,
    ensures
        drain(s + x, buf_bulk) == (Drained {
            values: drain(s, buf_bulk).values + drain(drain(s, buf_bulk).rest + x, buf_bulk).values,
            rest: drain(drain(s, buf_bulk).rest + x, buf_bulk).rest,
            error: drain(drain(s, buf_bulk).rest + x, buf_bulk).error,
        }),
    decreases s.len(),
{
    lemma_parse_progress(s, buf_bulk);
    lemma_parse_extend(s, x, buf_bulk);
    match parse_value(s, buf_bulk) {
        Parsed::Done(v, k) => {
            assert((s + x).skip(k) =~= s.skip(k) + x);
            lemma_drain_concat(s.skip(k), x, buf_bulk);
            let d = drain(s.skip(k), buf_bulk);
            let e = drain(d.rest + x, buf_bulk);
            assert(seq![v] + (d.values + e.values) =~= (seq![v] + d.values) + e.values);
        },
        Parsed::More(_) => {
            assert(Seq::<SpecValue>::empty() + drain(s + x, buf_bulk).values =~= drain(
                s + x,
                buf_bulk,
            ).values);
        },
        Parsed::Fail(_) => {},
    }
}

/// An error met while parsing `s` is met again, the same, in `s + x`.
proof fn lemma_drain_error_extends(s: Seq<u8>, x: Seq<u8>, buf_bulk: bool)
    requires
        drain(s, buf_bulk).error is Some,
    ensures
        drain(s + x, buf_bulk).error == drain(s, buf_bulk).error,
    decreases s.len(),
{
    lemma_parse_progress(s, buf_bulk);
    lemma_parse_extend(s, x, buf_bulk);
    if let Parsed::Done(v, k) = parse_value(s, buf_bulk) {
        assert((s + x).skip(k) =~= s.skip(k) + x);
        lemma_drain_error_extends(s.skip(k), x, buf_bulk);
    }
}

/// Feeding in two calls: when feeding `a` reports no error, feeding `a` and
/// then `b` leaves the decoder as feeding `a + b` in one call does, and
/// reports the same error.
pub proof fn lemma_feed_concat(st: StreamState, a: Seq<u8>, b: Seq<u8>)
    requires
        feed_error(st, a) is None,
    ensures
        fed(fed(st, a), b) == fed(st, a + b),
        feed_error(fed(st, a), b) == feed_error(st, a + b),
{
    let s = st.pending + a;
    lemma_drain_concat(s, b, st.buf_bulk);
    assert(st.pending + (a + b) =~= s + b);
    let d = drain(s, st.buf_bulk);
    let e = drain(d.rest + b, st.buf_bulk);
    assert(st.queue + d.values + e.values =~= st.queue + (d.values + e.values));
}

/// The state after feeding `s` one byte per call.
pub open spec fn fed_bytewise(st: StreamState, s: Seq<u8>) -> StreamState
    decreases s.len(),
{
    if s.len() == 0 {
        st
    } else {
        fed(fed_bytewise(st, s.drop_last()), seq![s.last()])
    }
}

/// Chunk-size independence: fed one byte per call, a settled decoder ends
/// as it does when fed all the bytes in one call, when that call reports no
/// error.
pub proof fn lemma_feed_bytewise(st: StreamState, s: Seq<u8>)
    requires
        settled(st),
        feed_error(st, s) is None,
    ensures
        fed_bytewise(st, s) == fed(st, s),
    decreases s.len(),
{
    if s.len() == 0 {
        assert(st.pending + s =~= st.pending);
        assert(st.queue + Seq::<SpecValue>::empty() =~= st.queue);
    } else {
        let init = s.drop_last();
        let last = seq![s.last()];
        assert(init + last =~= s);
        assert(st.pending + s =~= (st.pending + init) + last);
        if drain(st.pending + init, st.buf_bulk).error is Some {
            lemma_drain_error_extends(st.pending + init, last, st.buf_bulk);
        }
        lemma_feed_bytewise(st, init);
        lemma_feed_concat(st, init, last);
    }
}

/// The encoding of a lossless value fed to a decoder with nothing pending,
/// in one call or one byte per call, queues exactly its decoding and leaves
/// nothing pending.
pub proof fn lemma_feed_value(st: StreamState, v: SpecValue)
    requires
        st.pending.len() == 0,
        lossless(v, st.buf_bulk),
    ensures
        feed_error(st, encode_value(v)) is None,
        fed(st, encode_value(v)) == (StreamState {
            pending: Seq::empty(),
            queue: st.queue.push(decoded(v, st.buf_bulk)),
            buf_bulk: st.buf_bulk,
        }),
        fed_bytewise(st, encode_value(v)) == fed(st, encode_value(v)),
{
    let e = encode_value(v);
    assert(st.pending + e =~= e);
    lemma_round_trip(v, Seq::empty(), st.buf_bulk);
    assert(e + Seq::<u8>::empty() =~= e);
    lemma_parse_progress(e, st.buf_bulk);
    assert(e.skip(e.len() as int) =~= Seq::<u8>::empty());
    assert(drain(Seq::<u8>::empty(), st.buf_bulk).values =~= Seq::<SpecValue>::empty());
    assert(st.queue + (seq![decoded(v, st.buf_bulk)] + Seq::<SpecValue>::empty()) =~= st.queue.push(
        decoded(v, st.buf_bulk),
    ));
    assert(st.pending =~= Seq::<u8>::empty());
    lemma_feed_bytewise(st, e);
}

/// Error recovery: after a feed that reports a protocol error nothing is
/// pending, so the encoding of a lossless value fed next is read back as a
/// fresh decoder would read it.
pub proof fn lemma_error_recovery(st: StreamState, bad: Seq<u8>, v: SpecValue)
    requires
        feed_error(st, bad) is Some,
        lossless(v, st.buf_bulk),
    ensures
        fed(st, bad).pending.len() == 0,
        feed_error(fed(st, bad), encode_value(v)) is None,
        fed(fed(st, bad), encode_value(v)).queue == fed(st, bad).queue.push(
            decoded(v, st.buf_bulk),
        ),
        fed(fed(st, bad), encode_value(v)).pending.len() == 0,
{
    lemma_feed_value(fed(st, bad), v);
}

/// Bound enforcement: a `$` or `*` header that declares a length or count
/// below -1, or of 512 MiB or more, is rejected at once, whatever follows it
/// and however little does.
pub proof fn lemma_length_bound(marker: u8, n: int, rest: Seq<u8>, buf_bulk: bool)
    requires
        marker == 36u8 || marker == 42u8,
        n < -1 || n >= RESP_MAX_SIZE,
    ensures
        parse_value(line(marker, signed_decimal(n)) + rest, buf_bulk) == Parsed::<SpecValue>::Fail(
            if marker == 36u8 {
                ErrorCode::InvalidBulk
            } else {
                ErrorCode::InvalidArray
            },
        ),
        drain(line(marker, signed_decimal(n)) + rest, buf_bulk).error == Some(
            if marker == 36u8 {
                ErrorCode::InvalidBulk
            } else {
                ErrorCode::InvalidArray
            },
        ),
{
    lemma_signed_decimal_no_crlf(n);
    lemma_signed_decimal_round_trip(n);
    lemma_line(marker, signed_decimal(n), rest);
}

} // verus!
