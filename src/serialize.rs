//! Encoding values to bytes, and a decoder that reads values from a
//! complete byte buffer.

use vstd::prelude::*;

use crate::decimal::{push_decimal, push_signed_decimal};
use crate::error::Error;
use crate::parse::{Step, parse};
use crate::value::{SpecValue, Value};
use crate::wire::{Parsed, encode_items, encode_value, parse_value};

verus! {

/// Appends `bytes`.
pub fn push_bytes(out: &mut Vec<u8>, bytes: &[u8])
    ensures
        final(out)@ == old(out)@ + bytes@,
{
    let mut i: usize = 0;
    while i < bytes.len()
        invariant
            i <= bytes@.len(),
            out@ == old(out)@ + bytes@.subrange(0, i as int),
        decreases bytes@.len() - i,
    {
        out.push(bytes[i]);
        i = i + 1;
        assert(out@ =~= old(out)@ + bytes@.subrange(0, i as int));
    }
    assert(bytes@.subrange(0, i as int) =~= bytes@);
}

/// Appends `\r\n`.
fn push_crlf(out: &mut Vec<u8>)
    ensures
        final(out)@ == old(out)@ + seq![13u8, 10u8],
{
    out.push(13);
    out.push(10);
    assert(out@ =~= old(out)@ + seq![13u8, 10u8]);
}

/// Appends the wire encoding of `value`.
fn buf_encode(value: &Value, buf: &mut Vec<u8>)
    ensures
        final(buf)@ == old(buf)@ + encode_value(value@),
    decreases value,
{
    match value {
        Value::Null => {
            buf.push(36);
            buf.push(45);
            buf.push(49);
            push_crlf(buf);
            assert(buf@ =~= old(buf)@ + encode_value(value@));
        },
        Value::NullArray => {
            buf.push(42);
            buf.push(45);
            buf.push(49);
            push_crlf(buf);
            assert(buf@ =~= old(buf)@ + encode_value(value@));
        },
        Value::String(val) => {
            buf.push(43);
            push_bytes(buf, val.as_str().as_bytes());
            push_crlf(buf);
        },
        Value::Error(val) => {
            buf.push(45);
            push_bytes(buf, val.as_str().as_bytes());
            push_crlf(buf);
        },
        Value::Integer(val) => {
            buf.push(58);
            push_signed_decimal(*val, buf);
            push_crlf(buf);
        },
        Value::Bulk(val) => {
            let bytes = val.as_str().as_bytes();
            buf.push(36);
            push_decimal(bytes.len() as u64, buf);
            push_crlf(buf);
            push_bytes(buf, bytes);
            push_crlf(buf);
        },
        Value::BufBulk(val) => {
            buf.push(36);
            push_decimal(val.len() as u64, buf);
            push_crlf(buf);
            push_bytes(buf, val.as_slice());
            push_crlf(buf);
        },
        Value::Array(items) => {
            buf.push(42);
            push_decimal(items.len() as u64, buf);
            push_crlf(buf);
            let ghost header = buf@;
            let ghost models = value@->Array_0;
            let mut i: usize = 0;
            while i < items.len()
                invariant
                    *value == Value::Array(*items),
                    models == value@->Array_0,
                    i <= items@.len(),
                    buf@ == header + encode_items(models.subrange(0, i as int)),
                decreases items@.len() - i,
            {
                proof {
                    assert(decreases_to!(*value => value->Array_0));
                    assert(decreases_to!(value->Array_0 => value->Array_0@));
                    assert(decreases_to!(value->Array_0@ => items@[i as int]));
                }
                buf_encode(&items[i], buf);
                assert(models.subrange(0, i + 1).drop_last() =~= models.subrange(0, i as int));
                i = i + 1;
            }
            assert(models.subrange(0, i as int) =~= models);
        },
    }
}

/// Encodes a value to its RESP bytes.
pub fn encode(value: &Value) -> (r: Vec<u8>)
    ensures
        r@ == encode_value(value@),
{
    let mut res: Vec<u8> = Vec::new();
    buf_encode(value, &mut res);
    assert(res@ =~= encode_value(value@));
    res
}

/// The model of the array of bulk strings that `encode_slice` encodes.
pub open spec fn bulk_array(strings: Seq<&str>) -> SpecValue {
    SpecValue::Array(Seq::new(strings.len(), |i: int| SpecValue::Bulk(strings[i]@)))
}

/// Encodes strings as an array of bulk strings, as a client sends a command.
pub fn encode_slice(slice: &[&str]) -> (r: Vec<u8>)
    ensures
        r@ == encode_value(bulk_array(slice@)),
{
    let mut array: Vec<Value> = Vec::new();
    let mut i: usize = 0;
    while i < slice.len()
        invariant
            i <= slice@.len(),
            array@.len() == i,
            forall|k: int| 0 <= k < i ==> (#[trigger] array@[k])@ == SpecValue::Bulk(slice@[k]@),
        decreases slice@.len() - i,
    {
        array.push(Value::Bulk(slice[i].to_owned()));
        i = i + 1;
    }
    let value = Value::Array(array);
    assert(value@ == bulk_array(slice@)) by {
        assert(value@->Array_0 =~= bulk_array(slice@)->Array_0);
    }
    encode(&value)
}

/// A decoder that reads values one at a time from a complete byte buffer.
pub struct Decoder {
    buf_bulk: bool,
    input: Vec<u8>,
    pos: usize,
}

impl Decoder {
    /// The bytes not read yet.
    pub closed spec fn remaining(&self) -> Seq<u8> {
        self.input@.skip(self.pos as int)
    }

    /// Whether `$` payloads come out as raw bytes rather than text.
    pub closed spec fn spec_buf_bulk(&self) -> bool {
        self.buf_bulk
    }

    /// The read position lies within the input.
    pub closed spec fn wf(&self) -> bool {
        self.pos <= self.input@.len()
    }

    /// A decoder over `input` that turns `$` payloads into text.
    pub fn new(input: &[u8]) -> (r: Self)
        ensures
            r.wf(),
            r.remaining() == input@,
            !r.spec_buf_bulk(),
    {
        let mut bytes: Vec<u8> = Vec::new();
        push_bytes(&mut bytes, input);
        assert(bytes@.skip(0) =~= input@);
        Decoder { buf_bulk: false, input: bytes, pos: 0 }
    }

    /// A decoder over `input` that turns `$` payloads into raw bytes.
    pub fn with_buf_bulk(input: &[u8]) -> (r: Self)
        ensures
            r.wf(),
            r.remaining() == input@,
            r.spec_buf_bulk(),
    {
        let mut bytes: Vec<u8> = Vec::new();
        push_bytes(&mut bytes, input);
        assert(bytes@.skip(0) =~= input@);
        Decoder { buf_bulk: true, input: bytes, pos: 0 }
    }

    /// Decodes the next value. `Eof` where the input ends before a whole
    /// value; a protocol error discards the rest of the input.
    pub fn decode(&mut self) -> (r: Result<Value, Error>)
        requires
            old(self).wf(),
        ensures
            final(self).wf(),
            final(self).spec_buf_bulk() == old(self).spec_buf_bulk(),
            match parse_value(old(self).remaining(), old(self).spec_buf_bulk()) {
                Parsed::Done(v, k) => r matches Ok(w) && w@ == v && final(self).remaining()
                    == old(self).remaining().skip(k),
                Parsed::More(_) => r matches Err(Error::Eof) && final(self).remaining()
                    == old(self).remaining(),
                Parsed::Fail(e) => r matches Err(Error::Protocol(c)) && c == e
                    && final(self).remaining().len() == 0,
            },
    {
        let len = self.input.len();
        match parse(self.input.as_slice(), self.pos, self.buf_bulk) {
            Step::Done(v, k) => {
                assert(self.pos + k <= len);
                assert(self.input@.skip(self.pos + k) =~= self.input@.skip(
                    self.pos as int,
                ).skip(k as int));
                self.pos = self.pos + k;
                Ok(v)
            },
            Step::More(_) => Err(Error::Eof),
            Step::Fail(e) => {
                self.pos = len;
                Err(Error::Protocol(e))
            },
        }
    }
}

} // verus!
