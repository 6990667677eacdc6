//! A streaming decoder: bytes are fed in chunks of any size, and whole values
//! are read back in the order they arrived.

use std::collections::VecDeque;
use vstd::prelude::*;

use crate::error::{Error, ErrorCode};
use crate::parse::{Step, parse};
use crate::serialize::push_bytes;
use crate::value::{SpecValue, Value};
use crate::wire::{Parsed, lemma_parse_extend, parse_value};

verus! {

/// What parsing a buffer value after value gives: the values, the bytes
/// left over, and the error that stopped it, if any.
pub struct Drained {
    pub values: Seq<SpecValue>,
    pub rest: Seq<u8>,
    pub error: Option<ErrorCode>,
}

/// Parses values from the start of `s` until the bytes run short or break
/// the grammar. After an error nothing is left over.
pub open spec fn drain(s: Seq<u8>, buf_bulk: bool) -> Drained
    decreases s.len(),
{
    match parse_value(s, buf_bulk) {
        // `lemma_parse_progress` shows that `0 < k <= s.len()` always holds;
        // the test keeps the recursion visibly decreasing.
        Parsed::Done(v, k) => if 0 < k <= s.len() {
            let d = drain(s.skip(k), buf_bulk);
            Drained { values: seq![v] + d.values, rest: d.rest, error: d.error }
        } else {
            Drained { values: Seq::empty(), rest: Seq::empty(), error: None }
        },
        Parsed::More(_) => Drained { values: Seq::empty(), rest: s, error: None },
        Parsed::Fail(e) => Drained { values: Seq::empty(), rest: Seq::empty(), error: Some(e) },
    }
}

/// The model of a `Deserializer`.
pub struct StreamState {
    /// Bytes received that do not yet form a whole value.
    pub pending: Seq<u8>,
    /// Values parsed and not yet read, oldest first.
    pub queue: Seq<SpecValue>,
    /// Whether `$` payloads come out as raw bytes rather than text.
    pub buf_bulk: bool,
}

/// The pending bytes do not yet hold a whole value, nor a grammar error:
/// so it is after every `feed`.
pub open spec fn settled(st: StreamState) -> bool {
    parse_value(st.pending, st.buf_bulk) is More
}

/// The state after feeding `bytes`.
pub open spec fn fed(st: StreamState, bytes: Seq<u8>) -> StreamState {
    let d = drain(st.pending + bytes, st.buf_bulk);
    StreamState {
        pending: if d.error is Some {
            Seq::empty()
        } else {
            d.rest
        },
        queue: st.queue + d.values,
        buf_bulk: st.buf_bulk,
    }
}

/// The protocol error that feeding `bytes` reports, if any.
pub open spec fn feed_error(st: StreamState, bytes: Seq<u8>) -> Option<ErrorCode> {
    drain(st.pending + bytes, st.buf_bulk).error
}

/// A streaming RESP decoder.
pub struct Deserializer {
    buf: Vec<u8>,
    need: usize,
    res: VecDeque<Value>,
    buf_bulk: bool,
}

impl View for Deserializer {
    type V = StreamState;

    closed spec fn view(&self) -> StreamState {
        StreamState {
            pending: self.buf@,
            queue: Seq::new(self.res@.len(), |i: int| self.res@[i]@),
            buf_bulk: self.buf_bulk,
        }
    }
}

impl Deserializer {
    /// No parse of the pending bytes can finish or fail before there are at
    /// least `need` of them.
    pub closed spec fn wf(&self) -> bool {
        &&& settled(self@)
        &&& forall|x: Seq<u8>|
            (self.buf@ + x).len() < self.need ==> #[trigger] parse_value(
                self.buf@ + x,
                self.buf_bulk,
            ) is More
    }

    /// A decoder that turns `$` payloads into text.
    pub fn new() -> (r: Self)
        ensures
            r.wf(),
            r@.pending.len() == 0,
            r@.queue.len() == 0,
            !r@.buf_bulk,
            settled(r@),
    {
        Deserializer { buf: Vec::new(), need: 0, res: VecDeque::new(), buf_bulk: false }
    }

    /// A decoder that turns `$` payloads into raw bytes.
    pub fn with_buf_bulk() -> (r: Self)
        ensures
            r.wf(),
            r@.pending.len() == 0,
            r@.queue.len() == 0,
            r@.buf_bulk,
            settled(r@),
    {
        Deserializer { buf: Vec::new(), need: 0, res: VecDeque::new(), buf_bulk: true }
    }

    /// Appends `bytes` and parses every value they complete. A protocol
    /// error discards all pending bytes; values completed before it stay
    /// queued.
    pub fn feed(&mut self, bytes: &[u8]) -> (r: Result<(), Error>)
        requires
            old(self).wf(),
        ensures
            final(self).wf(),
            settled(final(self)@),
            final(self)@ == fed(old(self)@, bytes@),
            match feed_error(old(self)@, bytes@) {
                None => r is Ok,
                Some(e) => r matches Err(Error::Protocol(c)) && c == e,
            },
    {
        let ghost old_buf = self.buf@;
        let ghost st = self@;
        let ghost s = self.buf@ + bytes@;
        let ghost bb = self.buf_bulk;
        push_bytes(&mut self.buf, bytes);
        if self.buf.len() < self.need {
            proof {
                assert(parse_value(old_buf + bytes@, bb) is More);
                assert forall|y: Seq<u8>|
                    (self.buf@ + y).len() < self.need implies #[trigger] parse_value(
                    self.buf@ + y,
                    bb,
                ) is More by {
                    assert(self.buf@ + y =~= old_buf + (bytes@ + y));
                }
                assert(self@.queue =~= st.queue + Seq::<SpecValue>::empty());
            }
            return Ok(());
        }
        let len = self.buf.len();
        let mut pos: usize = 0;
        let ghost collected: Seq<SpecValue> = Seq::empty();
        assert(s.skip(0) =~= s);
        loop
            invariant
                st == old(self)@,
                s == st.pending + bytes@,
                bb == st.buf_bulk,
                self.buf@ == s,
                self.buf_bulk == bb,
                len == s.len(),
                pos <= s.len(),
                self@.queue == st.queue + collected,
                drain(s, bb) == (Drained {
                    values: collected + drain(s.skip(pos as int), bb).values,
                    rest: drain(s.skip(pos as int), bb).rest,
                    error: drain(s.skip(pos as int), bb).error,
                }),
            decreases s.len() - pos,
        {
            let ghost rest = s.skip(pos as int);
            match parse(self.buf.as_slice(), pos, self.buf_bulk) {
                Step::Done(v, k) => {
                    let ghost prev = self@.queue;
                    let ghost model = v@;
                    proof {
                        assert(rest.skip(k as int) =~= s.skip(pos + k));
                        assert(collected + (seq![model] + drain(rest.skip(k as int), bb).values)
                            =~= (collected + seq![model]) + drain(rest.skip(k as int), bb).values);
                    }
                    self.res.push_back(v);
                    proof {
                        assert(self@.queue =~= prev.push(model));
                        assert(prev.push(model) =~= st.queue + (collected + seq![model]));
                        collected = collected + seq![model];
                    }
                    pos = pos + k;
                },
                Step::More(m) => {
                    proof {
                        assert(collected + Seq::<SpecValue>::empty() =~= collected);
                        assert forall|y: Seq<u8>| (rest + y).len() < m implies #[trigger] parse_value(
                            rest + y,
                            bb,
                        ) is More by {
                            lemma_parse_extend(rest, y, bb);
                        }
                    }
                    let tail = self.buf.split_off(pos);
                    self.buf = tail;
                    self.need = m;
                    assert(self.buf@ =~= rest);
                    return Ok(());
                },
                Step::Fail(e) => {
                    proof {
                        assert(collected + Seq::<SpecValue>::empty() =~= collected);
                    }
                    self.buf.clear();
                    self.need = 0;
                    assert(self.buf@ =~= Seq::<u8>::empty());
                    return Err(Error::Protocol(e));
                },
            }
        }
    }

    /// Removes and returns the oldest parsed value, if there is one.
    pub fn read(&mut self) -> (r: Option<Value>)
        requires
            old(self).wf(),
        ensures
            final(self).wf(),
            settled(final(self)@),
            final(self)@.pending == old(self)@.pending,
            final(self)@.buf_bulk == old(self)@.buf_bulk,
            old(self)@.queue.len() == 0 ==> r is None && final(self)@.queue == old(self)@.queue,
            old(self)@.queue.len() > 0 ==> (r matches Some(v) && v@ == old(self)@.queue[0]
                && final(self)@.queue == old(self)@.queue.drop_first()),
    {
        let r = self.res.pop_front();
        assert(self@.queue =~= old(self)@.queue.drop_first() || r is None);
        proof {
            if r is None {
                assert(self@.queue =~= old(self)@.queue);
            }
        }
        r
    }

    /// How many bytes are buffered without forming a whole value yet.
    pub fn pending_byte_count(&self) -> (r: usize)
        ensures
            r == self@.pending.len(),
    {
        self.buf.len()
    }

    /// How many parsed values wait to be read.
    pub fn pending_value_count(&self) -> (r: usize)
        ensures
            r == self@.queue.len(),
    {
        self.res.len()
    }
}

} // verus!
