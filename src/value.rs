//! RESP values and their mathematical model.

use vstd::prelude::*;
use vstd::utf8::{encode_utf8, valid_utf8};

use crate::error::Error;
use crate::pretty::{fits, lemma_pretty_valid, pretty, pretty_into};
use crate::serialize::encode;
use crate::text::utf8_text;
use crate::wire::encode_value;

verus! {

/// A RESP value.
#[derive(PartialEq, Eq, Debug)]
pub enum Value {
    /// Null bulk reply, `$-1\r\n`.
    Null,
    /// Null array reply, `*-1\r\n`.
    NullArray,
    /// Simple string, first byte `+`.
    String(String),
    /// Error reply, first byte `-`.
    Error(String),
    /// Integer reply, first byte `:`.
    Integer(i64),
    /// Bulk string holding text, first byte `$`.
    Bulk(String),
    /// Bulk string holding raw bytes, first byte `$`.
    BufBulk(Vec<u8>),
    /// Array of values, first byte `*`.
    Array(Vec<Value>),
}

/// The model of a `Value`: text as characters, bytes and integers as they
/// are, arrays as sequences of models.
pub enum SpecValue {
    Null,
    NullArray,
    String(Seq<char>),
    Error(Seq<char>),
    Integer(int),
    Bulk(Seq<char>),
    BufBulk(Seq<u8>),
    Array(Seq<SpecValue>),
}

impl View for Value {
    type V = SpecValue;

    open spec fn view(&self) -> SpecValue
        decreases self,
    {
        match self {
            Value::Null => SpecValue::Null,
            Value::NullArray => SpecValue::NullArray,
            Value::String(s) => SpecValue::String(s@),
            Value::Error(s) => SpecValue::Error(s@),
            Value::Integer(n) => SpecValue::Integer(*n as int),
            Value::Bulk(s) => SpecValue::Bulk(s@),
            Value::BufBulk(b) => SpecValue::BufBulk(b@),
            Value::Array(items) => SpecValue::Array(
                Seq::new(
                    items@.len(),
                    |i: int|
                        if 0 <= i < items@.len() {
                            proof {
                                assert(decreases_to!(self => items));
                                assert(decreases_to!(items => items@));
                                assert(decreases_to!(items@ => items@[i]));
                            }
                            items@[i].view()
                        } else {
                            SpecValue::Null
                        },
                ),
            ),
        }
    }
}

impl Value {
    /// Whether the value is `Null` or `NullArray`.
    pub fn is_null(&self) -> (r: bool)
        ensures
            r == (self@ is Null || self@ is NullArray),
    {
        match self {
            Value::Null => true,
            Value::NullArray => true,
            _ => false,
        }
    }

    /// Whether the value is an `Error` reply.
    pub fn is_error(&self) -> (r: bool)
        ensures
            r == self@ is Error,
    {
        match self {
            Value::Error(_) => true,
            _ => false,
        }
    }

    /// The RESP bytes of the value.
    pub fn encode(&self) -> (r: Vec<u8>)
        ensures
            r@ == encode_value(self@),
    {
        encode(self)
    }

    /// The RESP bytes of the value as text; an error where they are not
    /// UTF-8, which only raw `BufBulk` payloads can cause.
    pub fn to_encoded_string(&self) -> (r: Result<String, Error>)
        ensures
            valid_utf8(encode_value(self@)) ==> (r matches Ok(s) && encode_utf8(s@) == encode_value(
                self@,
            )),
            !valid_utf8(encode_value(self@)) ==> (r matches Err(Error::FromUtf8(b)) && b@
                == encode_value(self@)),
    {
        let bytes = self.encode();
        let copy = bytes.clone();
        assert(copy@ =~= bytes@);
        match utf8_text(bytes) {
            Some(s) => Ok(s),
            None => Err(Error::FromUtf8(copy)),
        }
    }

    /// A human-readable rendering, as a command-line client shows a reply.
    pub fn to_beautify_string(&self) -> (r: String)
        requires
            fits(self@, 0),
        ensures
            encode_utf8(r@) == pretty(self@, 0),
    {
        let mut bytes: Vec<u8> = Vec::new();
        pretty_into(self, 0, &mut bytes);
        proof {
            lemma_pretty_valid(self@, 0);
            assert(bytes@ =~= pretty(self@, 0));
        }
        utf8_text(bytes).unwrap()
    }
}

impl Clone for Value {
    /// A deep copy.
    fn clone(&self) -> (r: Self)
        ensures
            r@ == self@,
        decreases self,
    {
        match self {
            Value::Null => Value::Null,
            Value::NullArray => Value::NullArray,
            Value::String(s) => Value::String(s.clone()),
            Value::Error(s) => Value::Error(s.clone()),
            Value::Integer(n) => Value::Integer(*n),
            Value::Bulk(s) => Value::Bulk(s.clone()),
            Value::BufBulk(b) => {
                let copy = b.clone();
                assert(copy@ =~= b@);
                Value::BufBulk(copy)
            },
            Value::Array(items) => {
                let mut copy: Vec<Value> = Vec::new();
                let mut i: usize = 0;
                while i < items.len()
                    invariant
                        *self == Value::Array(*items),
                        i <= items@.len(),
                        copy@.len() == i,
                        forall|k: int| 0 <= k < i ==> (#[trigger] copy@[k])@ == items@[k]@,
                    decreases items@.len() - i,
                {
                    proof {
                        assert(decreases_to!(*self => self->Array_0));
                        assert(decreases_to!(self->Array_0 => self->Array_0@));
                        assert(decreases_to!(self->Array_0@ => items@[i as int]));
                    }
                    copy.push(items[i].clone());
                    i = i + 1;
                }
                let r = Value::Array(copy);
                assert(r@->Array_0 =~= self@->Array_0);
                r
            },
        }
    }
}

} // verus!
