//! Walking the elements of a decoded request array, one typed argument at a
//! time.
//!
//! A request arrives as an array frame; `Parse` consumes its elements in
//! order, coercing each to the shape the command expects: text, raw bytes,
//! or an unsigned integer. A trailing `finish` enforces exact arity.

use crate::frame::{
    all_digits, bytes_to_string, dec_val, models_of, parse_digits, Frame, FrameModel,
};
use vstd::prelude::*;
use vstd::utf8::{decode_utf8, encode_utf8, valid_utf8};

verus! {

/// Why an argument could not be taken.
#[derive(Debug)]
pub enum ParseError {
    /// The array held fewer elements than the command needs.
    EndOfStream,
    /// An element had the wrong shape, or trailing elements remained.
    Other(&'static str),
}

/// The text an argument frame coerces to: status text as it stands, bulk
/// bytes decoded as UTF-8, nothing otherwise.
pub open spec fn as_text(m: FrameModel) -> Option<Seq<char>> {
    match m {
        FrameModel::Simple(t) => Option::Some(t),
        FrameModel::Bulk(b) => if valid_utf8(b) {
            Option::Some(decode_utf8(b))
        } else {
            Option::None
        },
        _ => Option::None,
    }
}

/// The raw bytes an argument frame coerces to: a status line's UTF-8 bytes,
/// or a bulk payload as it stands.
pub open spec fn as_blob(m: FrameModel) -> Option<Seq<u8>> {
    match m {
        FrameModel::Simple(t) => Option::Some(encode_utf8(t)),
        FrameModel::Bulk(b) => Option::Some(b),
        _ => Option::None,
    }
}

/// The unsigned integer an argument frame coerces to: its bytes must be
/// decimal digits, after an optional leading plus sign, and the value must
/// fit in 64 bits.
pub open spec fn as_int(m: FrameModel) -> Option<u64> {
    match as_blob(m) {
        Option::Some(b) => {
            let d = if b.len() > 0 && b[0] == 43 {
                b.drop_first()
            } else {
                b
            };
            if d.len() > 0 && all_digits(d) && dec_val(d) <= u64::MAX {
                Option::Some(dec_val(d) as u64)
            } else {
                Option::None
            }
        },
        Option::None => Option::None,
    }
}

/// Cursor over the elements of a request array. The elements are kept in
/// reverse, so taking the next one is a pop.
pub struct Parse {
    pub parts_rev: Vec<Frame>,
}

impl Parse {
    /// The elements not yet consumed, in request order.
    pub open spec fn remaining(self) -> Seq<FrameModel> {
        models_of(self.parts_rev@).reverse()
    }

    /// Take the elements of an array frame; any other frame is refused.
    #[verifier::loop_isolation(false)]
    pub fn new(frame: Frame) -> (r: Result<Parse, ParseError>)
        ensures
            match r {
                Ok(p) => frame.model() matches FrameModel::Array(ms) && p.remaining() == ms,
                Err(_) => !(frame.model() is Array),
            },
    {
        match frame {
            Frame::Array(mut v) => {
                let ghost v0 = v@;
                let mut parts_rev: Vec<Frame> = Vec::new();
                proof {
                    crate::frame::lemma_models_of(v0);
                }
                while v.len() > 0
                    invariant
                        v@.len() <= v0.len(),
                        v@ =~= v0.take(v@.len() as int),
                        parts_rev@ =~= v0.skip(v@.len() as int).reverse(),
                    decreases v@.len(),
                {
                    let ghost p0 = parts_rev@;
                    let ghost n1 = v@.len() as int;
                    match v.pop() {
                        Some(f) => {
                            parts_rev.push(f);
                            proof {
                                let len = v0.len() as int;
                                let n = n1 - 1;
                                assert(n1 >= 1);
                                assert(v@ == v0.take(n1).subrange(0, n1 - 1));
                                assert(v@.len() == n);
                                assert(v@ =~= v0.take(n));
                                assert(f == v0.take(n1).last());
                                assert(f == v0[n]);
                                assert(p0.len() == len - n1);
                                assert(parts_rev@ == p0.push(f));
                                assert forall|j: int|
                                    0 <= j < parts_rev@.len() implies parts_rev@[j] == v0.skip(
                                    n,
                                ).reverse()[j] by {
                                    assert(v0.skip(n).reverse()[j] == v0.skip(n)[len - n - 1
                                        - j]);
                                    assert(v0.skip(n)[len - n - 1 - j] == v0[len - 1 - j]);
                                    if j < p0.len() {
                                        assert(parts_rev@[j] == p0[j]);
                                        assert(p0[j] == v0.skip(n1).reverse()[j]);
                                        assert(v0.skip(n1).reverse()[j] == v0.skip(n1)[len - n1
                                            - 1 - j]);
                                        assert(v0.skip(n1)[len - n1 - 1 - j] == v0[len - 1 - j]);
                                    } else {
                                        assert(j == len - n - 1);
                                        assert(parts_rev@[j] == f);
                                    }
                                }
                                assert(parts_rev@ =~= v0.skip(n).reverse());
                            }
                        },
                        None => {
                            proof {
                                assert(false);
                            }
                        },
                    }
                }
                let p = Parse { parts_rev };
                proof {
                    assert(v0.skip(0) =~= v0);
                    lemma_models_reverse(p.parts_rev@);
                    assert(models_of(p.parts_rev@).reverse() =~= models_of(
                        p.parts_rev@.reverse(),
                    ));
                    assert(p.parts_rev@.reverse() =~= v0);
                }
                Ok(p)
            },
            _ => Err(ParseError::Other("expected an array frame")),
        }
    }

    /// How many elements have not been consumed yet.
    pub fn remaining_len(&self) -> (n: usize)
        ensures
            n == self.remaining().len(),
    {
        proof {
            crate::frame::lemma_models_of(self.parts_rev@);
        }
        self.parts_rev.len()
    }

    /// Take the next element as a frame.
    pub fn next(&mut self) -> (r: Result<Frame, ParseError>)
        ensures
            old(self).remaining().len() == 0 ==> r is Err && *final(self) == *old(self),
            old(self).remaining().len() > 0 ==> (r matches Ok(f) && f.model() == old(
                self,
            ).remaining()[0] && final(self).remaining() == old(self).remaining().drop_first()),
    {
        proof {
            crate::frame::lemma_models_of(self.parts_rev@);
        }
        if self.parts_rev.len() == 0 {
            return Err(ParseError::EndOfStream);
        }
        match self.parts_rev.pop() {
            Some(f) => {
                proof {
                    let s0 = old(self).parts_rev@;
                    let s1 = self.parts_rev@;
                    crate::frame::lemma_models_of(s0);
                    crate::frame::lemma_models_of(s1);
                    assert(s1 =~= s0.drop_last());
                    assert(f.model() == models_of(s0).reverse()[0]);
                    assert(models_of(s1).reverse() =~= models_of(s0).reverse().drop_first());
                }
                Ok(f)
            },
            None => {
                proof {
                    assert(false);
                }
                Err(ParseError::EndOfStream)
            },
        }
    }

    /// Take the next element as text: a status line, or bulk bytes that
    /// decode as UTF-8. The element is consumed even when it is refused.
    pub fn next_string(&mut self) -> (r: Result<String, ParseError>)
        ensures
            old(self).remaining().len() == 0 ==> r is Err && *final(self) == *old(self),
            old(self).remaining().len() > 0 ==> final(self).remaining() == old(
                self,
            ).remaining().drop_first() && (match as_text(old(self).remaining()[0]) {
                Option::Some(t) => r matches Ok(s) && s@ == t,
                Option::None => r is Err,
            }),
    {
        let f = match self.next() {
            Ok(f) => f,
            Err(e) => {
                return Err(e);
            },
        };
        match f {
            Frame::Simple(s) => Ok(s),
            Frame::Bulk(b) => {
                match bytes_to_string(b.as_slice()) {
                    Some(s) => {
                        proof {
                            vstd::utf8::encode_utf8_decode_utf8(s@);
                        }
                        Ok(s)
                    },
                    None => Err(ParseError::Other("invalid UTF-8")),
                }
            },
            _ => Err(ParseError::Other("expected a text or bulk frame")),
        }
    }

    /// Take the next element as raw bytes: a status line's bytes, or a bulk
    /// payload. The element is consumed even when it is refused.
    pub fn next_bytes(&mut self) -> (r: Result<Vec<u8>, ParseError>)
        ensures
            old(self).remaining().len() == 0 ==> r is Err && *final(self) == *old(self),
            old(self).remaining().len() > 0 ==> final(self).remaining() == old(
                self,
            ).remaining().drop_first() && (match as_blob(old(self).remaining()[0]) {
                Option::Some(b) => r matches Ok(v) && v@ == b,
                Option::None => r is Err,
            }),
    {
        let f = match self.next() {
            Ok(f) => f,
            Err(e) => {
                return Err(e);
            },
        };
        match f {
            Frame::Simple(s) => Ok(s.as_str().as_bytes_vec()),
            Frame::Bulk(b) => Ok(b),
            _ => Err(ParseError::Other("expected a text or bulk frame")),
        }
    }

    /// Take the next element as an unsigned integer written in decimal. The
    /// element is consumed even when it is refused.
    pub fn next_int(&mut self) -> (r: Result<u64, ParseError>)
        ensures
            old(self).remaining().len() == 0 ==> r is Err && *final(self) == *old(self),
            old(self).remaining().len() > 0 ==> final(self).remaining() == old(
                self,
            ).remaining().drop_first() && (match as_int(old(self).remaining()[0]) {
                Option::Some(n) => r == Result::<u64, ParseError>::Ok(n),
                Option::None => r is Err,
            }),
    {
        let b = match self.next_bytes() {
            Ok(b) => b,
            Err(e) => {
                return Err(e);
            },
        };
        let start: usize = if b.len() > 0 && b[0] == 43 {
            1
        } else {
            0
        };
        proof {
            if start == 1 {
                assert(b@.subrange(1, b@.len() as int) =~= b@.drop_first());
            } else {
                assert(b@.subrange(0, b@.len() as int) =~= b@);
            }
        }
        match parse_digits(b.as_slice(), start, b.len()) {
            Some(n) => Ok(n),
            None => Err(ParseError::Other("invalid integer")),
        }
    }

    /// Demand that no elements remain. A command with a fixed argument count
    /// calls this last; a leftover element is an arity error.
    pub fn finish(&mut self) -> (r: Result<(), ParseError>)
        ensures
            r is Ok <==> old(self).remaining().len() == 0,
            r is Ok ==> *final(self) == *old(self),
            r is Err ==> final(self).remaining() == old(self).remaining().drop_first(),
    {
        if self.parts_rev.len() == 0 {
            proof {
                crate::frame::lemma_models_of(self.parts_rev@);
            }
            return Ok(());
        }
        match self.next() {
            Ok(_) => Err(ParseError::Other("extra elements in request")),
            Err(_) => Ok(()),
        }
    }
}

/// Reversing a sequence of frames and taking models commute.
proof fn lemma_models_reverse(s: Seq<Frame>)
    ensures
        models_of(s).reverse() =~= models_of(s.reverse()),
{
    crate::frame::lemma_models_of(s);
    crate::frame::lemma_models_of(s.reverse());
}

} // verus!
