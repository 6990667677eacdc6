//! Parsing one element from a byte buffer, exactly as `parse_value` states.

use vstd::prelude::*;

use crate::decimal::parse_i64;
use crate::error::ErrorCode;
use crate::serialize::push_bytes;
use crate::text::utf8_text;
use crate::value::{SpecValue, Value};
use crate::wire::{
    Parsed, RESP_MAX_SIZE, after, crlf_at, crlf_from, lemma_after_after,
    parse_items, parse_value,
};

verus! {

/// The outcome of one parse step, relative to the position it started at.
pub enum Step {
    /// A whole element, and how many bytes it took.
    Done(Value, usize),
    /// More bytes are needed; no outcome before the remaining input is at
    /// least this long (saturated at `usize::MAX`).
    More(usize),
    /// The bytes break the grammar.
    Fail(ErrorCode),
}

/// `n`, or `usize::MAX` where it is larger.
pub open spec fn saturate(n: int) -> int {
    if n <= usize::MAX {
        n
    } else {
        usize::MAX as int
    }
}

/// `r` is the executable form of `p`.
pub open spec fn step_matches(r: Step, p: Parsed<SpecValue>) -> bool {
    match p {
        Parsed::Done(v, k) => r matches Step::Done(w, c) && w@ == v && c as int == k,
        Parsed::More(n) => r matches Step::More(m) && m as int == saturate(n),
        Parsed::Fail(e) => r == Step::Fail(e),
    }
}

/// The outcome for an array whose header took `header` bytes and whose
/// elements parsed as `items`.
pub open spec fn lift_items(items: Parsed<Seq<SpecValue>>, header: int) -> Parsed<SpecValue> {
    match items {
        Parsed::Done(values, k) => Parsed::Done(SpecValue::Array(values), header + k),
        Parsed::More(k) => Parsed::More(header + k),
        Parsed::Fail(e) => Parsed::Fail(e),
    }
}

/// `a + b`, or `usize::MAX` where that is larger.
fn saturating_sum(a: usize, b: usize) -> (r: usize)
    ensures
        r as int == saturate(a + b),
{
    if a > usize::MAX - b {
        usize::MAX
    } else {
        a + b
    }
}

/// A copy of `buf[from..to]`.
fn copy_range(buf: &[u8], from: usize, to: usize) -> (r: Vec<u8>)
    requires
        from <= to <= buf@.len(),
    ensures
        r@ == buf@.subrange(from as int, to as int),
{
    let mut r: Vec<u8> = Vec::new();
    push_bytes(&mut r, &buf[from..to]);
    assert(r@ =~= buf@.subrange(from as int, to as int));
    r
}

/// Where the first `\r\n` after the marker at `start` begins, counted from
/// `start`.
fn line_end(buf: &[u8], start: usize) -> (r: Option<usize>)
    requires
        start < buf@.len(),
    ensures
        match crlf_from(buf@.skip(start as int), 1) {
            Some(j) => r == Some(j as usize),
            None => r is None,
        },
{
    let ghost s = buf@.skip(start as int);
    let mut j: usize = 1;
    while j < buf.len() - start - 1
        invariant
            start < buf@.len(),
            s == buf@.skip(start as int),
            1 <= j,
            crlf_from(s, 1) == crlf_from(s, j as int),
        decreases buf@.len() - start - j,
    {
        if buf[start + j] == 13 && buf[start + j + 1] == 10 {
            assert(crlf_at(s, j as int));
            return Some(j);
        }
        j = j + 1;
    }
    None
}

/// Parses the element that starts at `buf[start]`. With `buf_bulk`, `$`
/// payloads become raw bytes; without it they must be UTF-8 text.
pub fn parse(buf: &[u8], start: usize, buf_bulk: bool) -> (r: Step)
    requires
        start <= buf@.len(),
    ensures
        step_matches(r, parse_value(buf@.skip(start as int), buf_bulk)),
        r matches Step::Done(_, k) ==> 0 < k && start + k <= buf@.len(),
    decreases buf@.len() - start,
{
    let ghost s = buf@.skip(start as int);
    let avail = buf.len() - start;
    if avail == 0 {
        return Step::More(1);
    }
    let marker = buf[start];
    if !(marker == 43 || marker == 45 || marker == 58 || marker == 36 || marker == 42) {
        return Step::Fail(ErrorCode::InvalidPrefix(marker));
    }
    let j = match line_end(buf, start) {
        None => {
            return Step::More(saturating_sum(avail, 1));
        },
        Some(j) => j,
    };
    proof {
        crate::wire::lemma_crlf_from(s, 1);
    }
    let ghost body = s.subrange(1, j as int);
    assert(buf@.subrange(start + 1, start + j) =~= body);
    let next = j + 2;
    if marker == 43 || marker == 45 {
        let bytes = copy_range(buf, start + 1, start + j);
        match utf8_text(bytes) {
            Some(text) => if marker == 43 {
                Step::Done(Value::String(text), next)
            } else {
                Step::Done(Value::Error(text), next)
            },
            None => if marker == 43 {
                Step::Fail(ErrorCode::InvalidString)
            } else {
                Step::Fail(ErrorCode::InvalidError)
            },
        }
    } else if marker == 58 {
        match parse_i64(buf, start + 1, start + j) {
            Some(n) => Step::Done(Value::Integer(n), next),
            None => Step::Fail(ErrorCode::InvalidInteger),
        }
    } else if marker == 36 {
        let n = match parse_i64(buf, start + 1, start + j) {
            None => {
                return Step::Fail(ErrorCode::InvalidBulk);
            },
            Some(n) => n,
        };
        if n == -1 {
            return Step::Done(Value::Null, next);
        }
        if n < -1 || n >= RESP_MAX_SIZE {
            return Step::Fail(ErrorCode::InvalidBulk);
        }
        let len = n as usize;
        if avail - next < len + 2 {
            return Step::More(saturating_sum(next, len + 2));
        }
        let end = next + len;
        if !(buf[start + end] == 13 && buf[start + end + 1] == 10) {
            return Step::Fail(ErrorCode::InvalidBulk);
        }
        let payload = copy_range(buf, start + next, start + end);
        assert(payload@ =~= s.subrange(next as int, end as int));
        if buf_bulk {
            Step::Done(Value::BufBulk(payload), end + 2)
        } else {
            match utf8_text(payload) {
                Some(text) => Step::Done(Value::Bulk(text), end + 2),
                None => Step::Fail(ErrorCode::InvalidBulk),
            }
        }
    } else {
        let n = match parse_i64(buf, start + 1, start + j) {
            None => {
                return Step::Fail(ErrorCode::InvalidArray);
            },
            Some(n) => n,
        };
        if n == -1 {
            return Step::Done(Value::NullArray, next);
        }
        if n < -1 || n >= RESP_MAX_SIZE {
            return Step::Fail(ErrorCode::InvalidArray);
        }
        let count = n as usize;
        let ghost whole = parse_items(s.skip(next as int), count as nat, buf_bulk);
        let mut items: Vec<Value> = Vec::new();
        let ghost models: Seq<SpecValue> = Seq::empty();
        let mut off: usize = next;
        let mut i: usize = 0;
        assert(s.skip(next as int).skip(0) =~= s.skip(next as int));
        assert(parse_value(s, buf_bulk) == lift_items(whole, next as int));
        while i < count
            invariant
                parse_value(s, buf_bulk) == lift_items(whole, next as int),
                buf@.len() <= usize::MAX,
                start < buf@.len(),
                s == buf@.skip(start as int),
                s.len() == buf@.len() - start,
                avail == s.len(),
                start + avail == buf@.len(),
                next <= off <= s.len(),
                next >= 3,
                i <= count,
                whole == parse_items(s.skip(next as int), count as nat, buf_bulk),
                items@.len() == i,
                models.len() == i,
                forall|k: int| 0 <= k < i ==> (#[trigger] items@[k])@ == models[k],
                whole == after(models, off - next, parse_items(s.skip(off as int), (count - i) as nat, buf_bulk)),
            decreases count - i,
        {
            let ghost rest = s.skip(off as int);
            assert(buf@.skip(start + off) =~= rest);
            match parse(buf, start + off, buf_bulk) {
                Step::Done(v, k) => {
                    proof {
                        let later = parse_items(rest.skip(k as int), (count - i - 1) as nat, buf_bulk);
                        assert(parse_items(rest, (count - i) as nat, buf_bulk) == after(seq![v@], k as int, later));
                        lemma_after_after(models, off - next, seq![v@], k as int, later);
                        assert(rest.skip(k as int) =~= s.skip(off + k));
                        assert(models.push(v@) =~= models + seq![v@]);
                        models = models.push(v@);
                    }
                    items.push(v);
                    off = off + k;
                    i = i + 1;
                },
                Step::More(m) => {
                    return Step::More(saturating_sum(off, m));
                },
                Step::Fail(e) => {
                    return Step::Fail(e);
                },
            }
        }
        proof {
            assert(models + Seq::<SpecValue>::empty() =~= models);
        }
        let r = Value::Array(items);
        assert(r@->Array_0 =~= models);
        Step::Done(r, off)
    }
}

} // verus!
