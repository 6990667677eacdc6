//! The wire format, stated over models: what each value encodes to.

use vstd::prelude::*;
use vstd::utf8::{decode_utf8, encode_utf8, valid_utf8};

use crate::decimal::{decimal, parse_decimal, signed_decimal};
use crate::error::ErrorCode;
use crate::value::SpecValue;

verus! {

/// Declared lengths and counts must stay below 512 MiB.
pub const RESP_MAX_SIZE: i64 = 512 * 1024 * 1024;

/// The terminator `\r\n`.
pub open spec fn crlf() -> Seq<u8> {
    seq![13u8, 10u8]
}

/// `marker`, then `body`, then `\r\n`.
pub open spec fn line(marker: u8, body: Seq<u8>) -> Seq<u8> {
    seq![marker] + body + crlf()
}

/// The bytes of a value on the wire.
pub open spec fn encode_value(v: SpecValue) -> Seq<u8>
    decreases v,
{
    match v {
        SpecValue::Null => seq![36u8, 45u8, 49u8, 13u8, 10u8],
        SpecValue::NullArray => seq![42u8, 45u8, 49u8, 13u8, 10u8],
        SpecValue::String(text) => line(43u8, encode_utf8(text)),
        SpecValue::Error(text) => line(45u8, encode_utf8(text)),
        SpecValue::Integer(n) => line(58u8, signed_decimal(n)),
        SpecValue::Bulk(text) => line(36u8, decimal(encode_utf8(text).len())) + encode_utf8(text)
            + crlf(),
        SpecValue::BufBulk(bytes) => line(36u8, decimal(bytes.len())) + bytes + crlf(),
        SpecValue::Array(items) => line(42u8, decimal(items.len())) + encode_items(items),
    }
}

/// The encodings of `items`, one after another.
pub open spec fn encode_items(items: Seq<SpecValue>) -> Seq<u8>
    decreases items,
{
    if items.len() == 0 {
        Seq::empty()
    } else {
        encode_items(items.drop_last()) + encode_value(items.last())
    }
}

/// The outcome of parsing from the start of a byte sequence.
pub enum Parsed<T> {
    /// A whole element, and how many bytes it took.
    Done(T, int),
    /// Not enough bytes yet: no outcome can come before the sequence holds at
    /// least this many.
    More(int),
    /// The bytes break the grammar.
    Fail(ErrorCode),
}

/// The wire markers: `+ - : $ *`.
pub open spec fn is_marker(b: u8) -> bool {
    b == 43u8 || b == 45u8 || b == 58u8 || b == 36u8 || b == 42u8
}

/// `s` holds `\r\n` at `i`.
pub open spec fn crlf_at(s: Seq<u8>, i: int) -> bool {
    0 <= i && i + 1 < s.len() && s[i] == 13u8 && s[i + 1] == 10u8
}

/// Where the first `\r\n` at or after `from` starts, if there is one.
pub open spec fn crlf_from(s: Seq<u8>, from: int) -> Option<int>
    decreases s.len() - from,
{
    if from < 0 || from + 1 >= s.len() {
        None
    } else if crlf_at(s, from) {
        Some(from)
    } else {
        crlf_from(s, from + 1)
    }
}

/// `crlf_from` finds the first terminator at or after `from`, or says that
/// there is none.
pub proof fn lemma_crlf_from(s: Seq<u8>, from: int)
    requires
        0 <= from,
    ensures
        match crlf_from(s, from) {
            Some(j) => from <= j && crlf_at(s, j) && forall|k: int|
                from <= k < j ==> !#[trigger] crlf_at(s, k),
            None => forall|k: int| from <= k ==> !#[trigger] crlf_at(s, k),
        },
    decreases s.len() - from,
{
    if from + 1 < s.len() && !crlf_at(s, from) {
        lemma_crlf_from(s, from + 1);
    }
}

/// The value of a `$` element whose payload is `payload`.
pub open spec fn bulk_value(payload: Seq<u8>, buf_bulk: bool) -> Parsed<SpecValue> {
    if buf_bulk {
        Parsed::Done(SpecValue::BufBulk(payload), 0)
    } else if valid_utf8(payload) {
        Parsed::Done(SpecValue::Bulk(decode_utf8(payload)), 0)
    } else {
        Parsed::Fail(ErrorCode::InvalidBulk)
    }
}

/// Parses one element from the start of `s`. With `buf_bulk`, `$` payloads
/// become raw bytes; without it they must be UTF-8 text.
pub open spec fn parse_value(s: Seq<u8>, buf_bulk: bool) -> Parsed<SpecValue>
    decreases s.len(), 0int, 0int,
{
    if s.len() == 0 {
        Parsed::More(1)
    } else if !is_marker(s[0]) {
        Parsed::Fail(ErrorCode::InvalidPrefix(s[0]))
    } else {
        match crlf_from(s, 1) {
            None => Parsed::More(s.len() + 1int),
            Some(j) => {
                let body = s.subrange(1, j);
                let next = j + 2;
                if s[0] == 43u8 {
                    if valid_utf8(body) {
                        Parsed::Done(SpecValue::String(decode_utf8(body)), next)
                    } else {
                        Parsed::Fail(ErrorCode::InvalidString)
                    }
                } else if s[0] == 45u8 {
                    if valid_utf8(body) {
                        Parsed::Done(SpecValue::Error(decode_utf8(body)), next)
                    } else {
                        Parsed::Fail(ErrorCode::InvalidError)
                    }
                } else if s[0] == 58u8 {
                    match parse_decimal(body) {
                        Some(n) => Parsed::Done(SpecValue::Integer(n), next),
                        None => Parsed::Fail(ErrorCode::InvalidInteger),
                    }
                } else if s[0] == 36u8 {
                    match parse_decimal(body) {
                        None => Parsed::Fail(ErrorCode::InvalidBulk),
                        Some(n) => if n == -1 {
                            Parsed::Done(SpecValue::Null, next)
                        } else if n < -1 || n >= RESP_MAX_SIZE {
                            Parsed::Fail(ErrorCode::InvalidBulk)
                        } else if s.len() < next + n + 2 {
                            Parsed::More(next + n + 2)
                        } else if !crlf_at(s, next + n) {
                            Parsed::Fail(ErrorCode::InvalidBulk)
                        } else {
                            match bulk_value(s.subrange(next, next + n), buf_bulk) {
                                Parsed::Done(v, _) => Parsed::Done(v, next + n + 2),
                                _ => Parsed::Fail(ErrorCode::InvalidBulk),
                            }
                        },
                    }
                } else {
                    match parse_decimal(body) {
                        None => Parsed::Fail(ErrorCode::InvalidArray),
                        Some(n) => if n == -1 {
                            Parsed::Done(SpecValue::NullArray, next)
                        } else if n < -1 || n >= RESP_MAX_SIZE {
                            Parsed::Fail(ErrorCode::InvalidArray)
                        } else {
                            proof {
                                lemma_crlf_from(s, 1);
                            }
                            match parse_items(s.skip(next), n as nat, buf_bulk) {
                                Parsed::Done(items, k) => Parsed::Done(
                                    SpecValue::Array(items),
                                    next + k,
                                ),
                                Parsed::More(k) => Parsed::More(next + k),
                                Parsed::Fail(e) => Parsed::Fail(e),
                            }
                        },
                    }
                }
            },
        }
    }
}

/// `r`, for a sequence that follows `count` bytes that held `first`.
pub open spec fn after(first: Seq<SpecValue>, count: int, r: Parsed<Seq<SpecValue>>) -> Parsed<
    Seq<SpecValue>,
> {
    match r {
        Parsed::Done(rest, k) => Parsed::Done(first + rest, count + k),
        Parsed::More(k) => Parsed::More(count + k),
        Parsed::Fail(e) => Parsed::Fail(e),
    }
}

/// Two `after`s in a row are one `after` of the joined prefix.
pub proof fn lemma_after_after(
    first: Seq<SpecValue>,
    count: int,
    second: Seq<SpecValue>,
    count2: int,
    r: Parsed<Seq<SpecValue>>,
)
    ensures
        after(first, count, after(second, count2, r)) == after(first + second, count + count2, r),
{
    if let Parsed::Done(rest, k) = r {
        assert(first + (second + rest) =~= (first + second) + rest);
    }
}

/// Parses `n` elements one after another from the start of `s`.
pub open spec fn parse_items(s: Seq<u8>, n: nat, buf_bulk: bool) -> Parsed<Seq<SpecValue>>
    decreases s.len(), 1int, n,
{
    if n == 0 {
        Parsed::Done(Seq::empty(), 0)
    } else {
        match parse_value(s, buf_bulk) {
            // `lemma_parse_progress` shows that `0 < k <= s.len()` always
            // holds; the test keeps the recursion visibly decreasing.
            Parsed::Done(v, k) => if 0 < k <= s.len() {
                after(seq![v], k, parse_items(s.skip(k), (n - 1) as nat, buf_bulk))
            } else {
                Parsed::Fail(ErrorCode::InvalidArray)
            },
            Parsed::More(k) => Parsed::More(k),
            Parsed::Fail(e) => Parsed::Fail(e),
        }
    }
}

/// A parse that finishes consumes at least one byte and no more than there
/// are; a parse that needs more asks for more than there are.
pub proof fn lemma_parse_progress(s: Seq<u8>, buf_bulk: bool)
    ensures
        parse_value(s, buf_bulk) matches Parsed::Done(_, k) ==> 0 < k <= s.len(),
        parse_value(s, buf_bulk) matches Parsed::More(n) ==> n > s.len(),
    decreases s.len(), 0int, 0int,
{
    if s.len() > 0 && is_marker(s[0]) {
        lemma_crlf_from(s, 1);
        if let Some(j) = crlf_from(s, 1) {
            if s[0] == 42u8 {
                if let Some(n) = parse_decimal(s.subrange(1, j)) {
                    if 0 <= n < RESP_MAX_SIZE {
                        lemma_items_progress(s.skip(j + 2), n as nat, buf_bulk);
                    }
                }
            }
        }
    }
}

/// `parse_items` consumes no more bytes than there are, and asks for more
/// than there are when it needs more.
pub proof fn lemma_items_progress(s: Seq<u8>, n: nat, buf_bulk: bool)
    ensures
        parse_items(s, n, buf_bulk) matches Parsed::Done(_, k) ==> 0 <= k <= s.len(),
        parse_items(s, n, buf_bulk) matches Parsed::More(m) ==> m > s.len(),
    decreases s.len(), 1int, n,
{
    if n > 0 {
        lemma_parse_progress(s, buf_bulk);
        if let Parsed::Done(_, k) = parse_value(s, buf_bulk) {
            lemma_items_progress(s.skip(k), (n - 1) as nat, buf_bulk);
        }
    }
}

/// The first terminator in `s` stays the first one when bytes are appended.
pub proof fn lemma_crlf_extend(s: Seq<u8>, x: Seq<u8>, from: int)
    requires
        0 <= from,
        crlf_from(s, from) is Some,
    ensures
        crlf_from(s + x, from) == crlf_from(s, from),
{
    let t = s + x;
    lemma_crlf_from(s, from);
    lemma_crlf_from(t, from);
    let j = crlf_from(s, from)->0;
    assert(crlf_at(t, j));
    assert forall|k: int| from <= k < j implies !#[trigger] crlf_at(t, k) by {
        assert(!crlf_at(s, k));
    }
    if let Some(j2) = crlf_from(t, from) {
        if j2 < j {
            assert(!crlf_at(t, j2));
        }
    }
}

/// Appending bytes keeps a finished or failed parse as it was, and a parse
/// that needs `n` bytes keeps needing more while fewer than `n` are there.
pub proof fn lemma_parse_extend(s: Seq<u8>, x: Seq<u8>, buf_bulk: bool)
    ensures
        match parse_value(s, buf_bulk) {
            Parsed::Done(v, k) => parse_value(s + x, buf_bulk) == Parsed::Done(v, k),
            Parsed::Fail(e) => parse_value(s + x, buf_bulk) == Parsed::<SpecValue>::Fail(e),
            Parsed::More(n) => (s + x).len() < n ==> parse_value(s + x, buf_bulk) is More,
        },
    decreases s.len(), 0int, 0int,
{
    let t = s + x;
    if s.len() == 0 {
        if t.len() < 1 {
            assert(t =~= s);
        }
    } else if is_marker(s[0]) {
        assert(t[0] == s[0]);
        lemma_crlf_from(s, 1);
        match crlf_from(s, 1) {
            None => {
                if t.len() < s.len() + 1 {
                    assert(t =~= s);
                }
            },
            Some(j) => {
                lemma_crlf_extend(s, x, 1);
                assert(t.subrange(1, j) =~= s.subrange(1, j));
                let next = j + 2;
                if let Some(n) = parse_decimal(s.subrange(1, j)) {
                    if s[0] == 36u8 && 0 <= n < RESP_MAX_SIZE && s.len() >= next + n + 2 {
                        assert(t.subrange(next, next + n) =~= s.subrange(next, next + n));
                        assert(crlf_at(t, next + n) == crlf_at(s, next + n));
                    }
                    if s[0] == 42u8 && 0 <= n < RESP_MAX_SIZE {
                        assert(t.skip(next) =~= s.skip(next) + x);
                        lemma_items_extend(s.skip(next), x, n as nat, buf_bulk);
                    }
                }
            },
        }
    }
}

/// `lemma_parse_extend` for a run of `n` elements.
pub proof fn lemma_items_extend(s: Seq<u8>, x: Seq<u8>, n: nat, buf_bulk: bool)
    ensures
        match parse_items(s, n, buf_bulk) {
            Parsed::Done(v, k) => parse_items(s + x, n, buf_bulk) == Parsed::Done(v, k),
            Parsed::Fail(e) => parse_items(s + x, n, buf_bulk) == Parsed::<Seq<SpecValue>>::Fail(
                e,
            ),
            Parsed::More(m) => (s + x).len() < m ==> parse_items(s + x, n, buf_bulk) is More,
        },
    decreases s.len(), 1int, n,
{
    let t = s + x;
    if n > 0 {
        lemma_parse_extend(s, x, buf_bulk);
        lemma_parse_progress(s, buf_bulk);
        if let Parsed::Done(v, k) = parse_value(s, buf_bulk) {
            assert(t.skip(k) =~= s.skip(k) + x);
            lemma_items_extend(s.skip(k), x, (n - 1) as nat, buf_bulk);
        }
    }
}

} // verus!
