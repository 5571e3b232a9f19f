//! The wire frame: the unit of exchange between client and server, together
//! with its byte encoding.
//!
//! Every message is a tagged, length- or line-delimited record:
//!
//! - status line:   `+` text `CR LF`
//! - error line:    `-` text `CR LF`
//! - integer:       `:` decimal digits `CR LF`
//! - bulk bytes:    `$` decimal length `CR LF` payload `CR LF`
//! - null:          `$-1 CR LF`
//! - array:         `*` decimal count `CR LF` followed by that many frames
//!
//! Bulk payloads are binary safe: their length is declared up front, so the
//! payload is never scanned for a terminator. Decoding is restartable: on a
//! short buffer it reports "more input needed" rather than failing.

use vstd::prelude::*;
use vstd::slice::slice_to_vec;
use vstd::utf8::{encode_utf8, is_ascii_chars, is_ascii_chars_encode_utf8, valid_utf8};

verus! {

/// One discrete protocol message, request or reply.
#[derive(Debug, PartialEq, Eq)]
pub enum Frame {
    /// Short ASCII status text, e.g. "OK".
    Simple(String),
    /// Command failure message.
    Error(String),
    /// Unsigned numeric reply (length, count, boolean 0/1).
    Integer(u64),
    /// Arbitrary binary-safe byte payload.
    Bulk(Vec<u8>),
    /// Absence of a value.
    Null,
    /// Ordered sequence of frames: a request or a multi-value reply.
    Array(Vec<Frame>),
}

/// The mathematical value of a [`Frame`], used throughout the contracts.
pub ghost enum FrameModel {
    Simple(Seq<char>),
    Error(Seq<char>),
    Integer(u64),
    Bulk(Seq<u8>),
    Null,
    Array(Seq<FrameModel>),
}

/// Models of a sequence of frames, elementwise.
pub open spec fn models_of(s: Seq<Frame>) -> Seq<FrameModel>
    decreases s,
{
    if s.len() == 0 {
        Seq::empty()
    } else {
        seq![s[0].model()] + models_of(s.drop_first())
    }
}

/// `models_of` is the elementwise image of `Frame::model`.
pub proof fn lemma_models_of(s: Seq<Frame>)
    ensures
        models_of(s).len() == s.len(),
        forall|i: int| 0 <= i < s.len() ==> models_of(s)[i] == s[i].model(),
    decreases s,
{
    if s.len() > 0 {
        lemma_models_of(s.drop_first());
    }
}

impl Frame {
    /// The abstract value of this frame.
    pub open spec fn model(self) -> FrameModel
        decreases self,
    {
        match self {
            Frame::Simple(s) => FrameModel::Simple(s@),
            Frame::Error(s) => FrameModel::Error(s@),
            Frame::Integer(n) => FrameModel::Integer(n),
            Frame::Bulk(b) => FrameModel::Bulk(b@),
            Frame::Null => FrameModel::Null,
            Frame::Array(a) => FrameModel::Array(models_of(a@)),
        }
    }
}

/// Status and error text rides on its own line of the encoding, so it must be
/// ASCII and free of the line terminator bytes.
pub open spec fn text_ok(t: Seq<char>) -> bool {
    is_ascii_chars(t) && forall|i: int| 0 <= i < t.len() ==> t[i] != '\r' && t[i] != '\n'
}

/// A raw token that may stand on a line of the encoding: ASCII, no CR or LF.
pub open spec fn token_ok(t: Seq<u8>) -> bool {
    forall|i: int| 0 <= i < t.len() ==> t[i] < 128 && t[i] != 13 && t[i] != 10
}

/// The bytes of an ASCII character sequence, one byte per character.
pub open spec fn ascii_bytes(t: Seq<char>) -> Seq<u8> {
    Seq::new(t.len(), |i: int| t[i] as u8)
}

/// The characters of an ASCII byte sequence, one character per byte.
pub open spec fn ascii_chars(t: Seq<u8>) -> Seq<char> {
    Seq::new(t.len(), |i: int| t[i] as char)
}

/// All frames in a sequence are well formed.
pub open spec fn wf_all(ms: Seq<FrameModel>) -> bool
    decreases ms,
{
    ms.len() == 0 || (ms[0].wf() && wf_all(ms.drop_first()))
}

/// `wf_all` holds exactly when every element is well formed.
pub proof fn lemma_wf_all(ms: Seq<FrameModel>)
    ensures
        wf_all(ms) <==> (forall|i: int| 0 <= i < ms.len() ==> ms[i].wf()),
    decreases ms,
{
    if ms.len() > 0 {
        lemma_wf_all(ms.drop_first());
        if ms[0].wf() && wf_all(ms.drop_first()) {
            assert forall|i: int| 0 <= i < ms.len() implies ms[i].wf() by {
                if i > 0 {
                    assert(ms.drop_first()[i - 1].wf());
                }
            }
        }
        if forall|i: int| 0 <= i < ms.len() ==> ms[i].wf() {
            assert forall|i: int| 0 <= i < ms.drop_first().len() implies ms.drop_first()[i].wf() by {
                assert(ms.drop_first()[i] == ms[i + 1]);
            }
        }
    }
}

impl FrameModel {
    /// A frame that the codec can put on the wire: status and error text is
    /// short ASCII without line terminators, recursively so under arrays.
    pub open spec fn wf(self) -> bool
        decreases self,
    {
        match self {
            FrameModel::Simple(t) => text_ok(t),
            FrameModel::Error(t) => text_ok(t),
            FrameModel::Integer(_) => true,
            FrameModel::Bulk(b) => b.len() <= usize::MAX,
            FrameModel::Null => true,
            FrameModel::Array(ms) => ms.len() <= usize::MAX && wf_all(ms),
        }
    }
}

// ---------------------------------------------------------------------------
// Decimal numerals
// ---------------------------------------------------------------------------

/// Is `b` an ASCII decimal digit?
pub open spec fn is_digit(b: u8) -> bool {
    48 <= b <= 57
}

/// Every byte of `s` is an ASCII decimal digit.
pub open spec fn all_digits(s: Seq<u8>) -> bool {
    forall|i: int| 0 <= i < s.len() ==> is_digit(s[i])
}

/// The canonical decimal numeral of `n`: most significant digit first, no
/// leading zeros (except for `n == 0` itself).
pub open spec fn dec_digits(n: nat) -> Seq<u8>
    decreases n,
{
    if n < 10 {
        seq![(n + 48) as u8]
    } else {
        dec_digits(n / 10).push(((n % 10) + 48) as u8)
    }
}

/// The value of a digit string, most significant digit first.
pub open spec fn dec_val(s: Seq<u8>) -> int
    decreases s.len(),
{
    if s.len() == 0 {
        0
    } else {
        dec_val(s.drop_last()) * 10 + (s.last() - 48)
    }
}

/// The canonical numeral consists of digits and is never empty.
pub proof fn lemma_dec_digits_shape(n: nat)
    ensures
        all_digits(dec_digits(n)),
        dec_digits(n).len() >= 1,
    decreases n,
{
    if n >= 10 {
        lemma_dec_digits_shape(n / 10);
        let s = dec_digits(n / 10);
        let d = ((n % 10) + 48) as u8;
        assert forall|i: int| 0 <= i < s.push(d).len() implies is_digit(s.push(d)[i]) by {
            if i < s.len() {
                assert(s.push(d)[i] == s[i]);
            }
        }
    }
}

/// Reading the canonical numeral of `n` back yields `n`.
pub proof fn lemma_dec_digits_val(n: nat)
    ensures
        dec_val(dec_digits(n)) == n,
    decreases n,
{
    if n < 10 {
        let s = dec_digits(n);
        assert(s == seq![(n + 48) as u8]);
        assert(s.drop_last() =~= Seq::<u8>::empty());
        assert(dec_val(s.drop_last()) == 0);
        assert(s.last() == (n + 48) as u8);
        assert((n + 48) as u8 == n + 48);
        assert(dec_val(s) == 0 * 10 + ((n + 48) as u8 - 48));
    } else {
        lemma_dec_digits_val(n / 10);
        let s = dec_digits(n / 10);
        let d = ((n % 10) + 48) as u8;
        assert(d == (n % 10) + 48);
        assert(s.push(d).drop_last() =~= s);
        assert(s.push(d).last() == d);
        assert((n / 10) * 10 + n % 10 == n);
    }
}

/// A digit string has a non-negative value.
pub proof fn lemma_dec_val_nonneg(s: Seq<u8>)
    requires
        all_digits(s),
    ensures
        dec_val(s) >= 0,
    decreases s.len(),
{
    if s.len() > 0 {
        assert(all_digits(s.drop_last()));
        lemma_dec_val_nonneg(s.drop_last());
    }
}

/// Extending a digit string by one digit shifts its value one decimal place.
pub proof fn lemma_dec_val_step(s: Seq<u8>, i: int)
    requires
        0 <= i < s.len(),
    ensures
        dec_val(s.take(i + 1)) == dec_val(s.take(i)) * 10 + (s[i] - 48),
{
    assert(s.take(i + 1).drop_last() =~= s.take(i));
    assert(s.take(i + 1).last() == s[i]);
}

/// The value of a digit string prefix never shrinks as the prefix grows.
pub proof fn lemma_dec_val_monotone(s: Seq<u8>, i: int, j: int)
    requires
        all_digits(s),
        0 <= i <= j <= s.len(),
    ensures
        dec_val(s.take(i)) <= dec_val(s.take(j)),
    decreases j - i,
{
    if i < j {
        lemma_dec_val_monotone(s, i, j - 1);
        assert(all_digits(s.take(j - 1)));
        lemma_dec_val_nonneg(s.take(j - 1));
        lemma_dec_val_step(s, j - 1);
    }
}

// ---------------------------------------------------------------------------
// The encoding, as a mathematical function
// ---------------------------------------------------------------------------

/// The exact byte encoding of a frame.
pub open spec fn senc(m: FrameModel) -> Seq<u8>
    decreases m,
{
    match m {
        FrameModel::Simple(t) => seq![43u8] + ascii_bytes(t) + seq![13u8, 10u8],
        FrameModel::Error(t) => seq![45u8] + ascii_bytes(t) + seq![13u8, 10u8],
        FrameModel::Integer(n) => seq![58u8] + dec_digits(n as nat) + seq![13u8, 10u8],
        FrameModel::Bulk(b) => seq![36u8] + dec_digits(b.len()) + seq![13u8, 10u8] + b + seq![
            13u8,
            10u8,
        ],
        FrameModel::Null => seq![36u8, 45u8, 49u8, 13u8, 10u8],
        FrameModel::Array(ms) => seq![42u8] + dec_digits(ms.len()) + seq![13u8, 10u8] + senc_many(
            ms,
        ),
    }
}

/// The concatenated encodings of a sequence of frames, in order.
pub open spec fn senc_many(ms: Seq<FrameModel>) -> Seq<u8>
    decreases ms,
{
    if ms.len() == 0 {
        Seq::empty()
    } else {
        senc(ms[0]) + senc_many(ms.drop_first())
    }
}

// ---------------------------------------------------------------------------
// The executable encoder
// ---------------------------------------------------------------------------

/// Append the canonical decimal numeral of `n`.
pub fn push_dec(n: u64, out: &mut Vec<u8>)
    ensures
        final(out)@ == old(out)@ + dec_digits(n as nat),
    decreases n,
{
    if n < 10 {
        out.push((48 + n) as u8);
        assert(out@ =~= old(out)@ + dec_digits(n as nat));
    } else {
        push_dec(n / 10, out);
        out.push((48 + n % 10) as u8);
        assert(out@ =~= old(out)@ + dec_digits(n as nat));
    }
}

impl Frame {
    /// Append the byte encoding of this frame to `out`.
    #[verifier::loop_isolation(false)]
    pub fn encode(&self, out: &mut Vec<u8>)
        requires
            self.model().wf(),
        ensures
            final(out)@ == old(out)@ + senc(self.model()),
        decreases *self,
    {
        match self {
            Frame::Simple(s) => {
                out.push(43);
                let mut body = slice_to_vec(s.as_str().as_bytes());
                out.append(&mut body);
                out.push(13);
                out.push(10);
                proof {
                    is_ascii_chars_encode_utf8(s@);
                    assert(encode_utf8(s@) =~= ascii_bytes(s@));
                    assert(out@ =~= old(out)@ + senc(self.model()));
                }
            },
            Frame::Error(s) => {
                out.push(45);
                let mut body = slice_to_vec(s.as_str().as_bytes());
                out.append(&mut body);
                out.push(13);
                out.push(10);
                proof {
                    is_ascii_chars_encode_utf8(s@);
                    assert(encode_utf8(s@) =~= ascii_bytes(s@));
                    assert(out@ =~= old(out)@ + senc(self.model()));
                }
            },
            Frame::Integer(n) => {
                out.push(58);
                push_dec(*n, out);
                out.push(13);
                out.push(10);
                assert(out@ =~= old(out)@ + senc(self.model()));
            },
            Frame::Bulk(b) => {
                out.push(36);
                push_dec(b.len() as u64, out);
                out.push(13);
                out.push(10);
                let mut body = slice_to_vec(b.as_slice());
                out.append(&mut body);
                out.push(13);
                out.push(10);
                assert(out@ =~= old(out)@ + senc(self.model()));
            },
            Frame::Null => {
                out.push(36);
                out.push(45);
                out.push(49);
                out.push(13);
                out.push(10);
                assert(out@ =~= old(out)@ + senc(self.model()));
            },
            Frame::Array(a) => {
                out.push(42);
                push_dec(a.len() as u64, out);
                out.push(13);
                out.push(10);
                proof {
                    lemma_models_of(a@);
                    lemma_wf_all(models_of(a@));
                    assert(models_of(a@).skip(0) =~= models_of(a@));
                }
                let ghost ms = models_of(a@);
                let ghost base = out@;
                let mut i: usize = 0;
                while i < a.len()
                    invariant
                        0 <= i <= a.len(),
                        ms == models_of(a@),
                        ms.len() == a@.len(),
                        forall|j: int| 0 <= j < a@.len() ==> ms[j] == a@[j].model(),
                        forall|j: int| 0 <= j < ms.len() ==> ms[j].wf(),
                        out@ == base + senc_many(ms.take(i as int)),
                        senc_many(ms.take(i as int)) + senc_many(ms.skip(i as int)) =~= senc_many(
                            ms,
                        ),
                    decreases a.len() - i,
                {
                    let ghost before = out@;
                    proof {
                        assert(*a == (*self)->Array_0);
                        assert(decreases_to!(*self => (*self)->Array_0));
                        assert(decreases_to!(*a => a@));
                        assert(decreases_to!(a@ => a@[i as int]));
                    }
                    a[i].encode(out);
                    proof {
                        let k = i as int;
                        assert(ms.skip(k)[0] == ms[k]);
                        assert(ms.skip(k).drop_first() =~= ms.skip(k + 1));
                        assert(senc_many(ms.skip(k)) == senc(ms[k]) + senc_many(ms.skip(k + 1)));
                        assert(ms.take(k + 1).drop_last() =~= ms.take(k));
                        lemma_senc_many_snoc(ms.take(k + 1));
                        assert(ms.take(k + 1).last() == ms[k]);
                        assert(out@ =~= base + senc_many(ms.take(k + 1)));
                        assert(senc_many(ms.take(k + 1)) + senc_many(ms.skip(k + 1)) =~= senc_many(
                            ms,
                        ));
                    }
                    i = i + 1;
                }
                proof {
                    assert(ms.take(ms.len() as int) =~= ms);
                    assert(out@ =~= old(out)@ + senc(self.model()));
                }
            },
        }
    }

    /// The byte encoding of this frame, as a fresh buffer.
    pub fn to_wire(&self) -> (r: Vec<u8>)
        requires
            self.model().wf(),
        ensures
            r@ == senc(self.model()),
    {
        let mut out: Vec<u8> = Vec::new();
        self.encode(&mut out);
        proof {
            assert(out@ =~= senc(self.model()));
        }
        out
    }
}

/// Splitting off the last element splits the concatenated encoding.
pub proof fn lemma_senc_many_snoc(ms: Seq<FrameModel>)
    requires
        ms.len() > 0,
    ensures
        senc_many(ms) == senc_many(ms.drop_last()) + senc(ms.last()),
    decreases ms.len(),
{
    if ms.len() == 1 {
        assert(ms.drop_last() =~= Seq::<FrameModel>::empty());
        assert(ms.drop_first() =~= Seq::<FrameModel>::empty());
        assert(senc_many(ms.drop_first()) == Seq::<u8>::empty());
        assert(senc_many(ms) =~= senc(ms[0]));
        assert(senc_many(ms.drop_last()) + senc(ms.last()) =~= senc(ms[0]));
    } else {
        lemma_senc_many_snoc(ms.drop_first());
        assert(ms.drop_first().drop_last() =~= ms.drop_last().drop_first());
        assert(ms.drop_first().last() == ms.last());
        assert(ms.drop_last()[0] == ms[0]);
        assert(senc_many(ms.drop_last()) == senc(ms[0]) + senc_many(ms.drop_last().drop_first()));
        assert(senc_many(ms) =~= senc_many(ms.drop_last()) + senc(ms.last()));
    }
}


// ---------------------------------------------------------------------------
// The decoder, as a mathematical function
// ---------------------------------------------------------------------------

/// Result of taking one CR-LF-terminated line off the head of a buffer.
pub ghost enum SpecLine {
    /// The token before the terminator, and the bytes consumed with it.
    Line(Seq<u8>, int),
    /// The terminator has not arrived yet.
    MoreNeeded,
    /// A CR not followed by LF.
    Bad,
}

/// Index of the first CR byte, if any.
pub open spec fn find_cr(s: Seq<u8>) -> Option<int>
    decreases s.len(),
{
    if s.len() == 0 {
        Option::None
    } else if s[0] == 13 {
        Option::Some(0)
    } else {
        match find_cr(s.drop_first()) {
            Option::Some(i) => Option::Some(i + 1),
            Option::None => Option::None,
        }
    }
}

/// `find_cr` finds exactly the first CR.
pub proof fn lemma_find_cr(s: Seq<u8>)
    ensures
        match find_cr(s) {
            Option::Some(i) => 0 <= i < s.len() && s[i] == 13 && (forall|j: int|
                0 <= j < i ==> s[j] != 13),
            Option::None => forall|j: int| 0 <= j < s.len() ==> s[j] != 13,
        },
    decreases s.len(),
{
    if s.len() > 0 && s[0] != 13 {
        let r = s.drop_first();
        lemma_find_cr(r);
        assert(forall|j: int| 0 <= j < r.len() ==> r[j] == s[j + 1]);
        match find_cr(r) {
            Option::Some(i) => {
                assert(s[i + 1] == r[i]);
                assert forall|j: int| 0 <= j < i + 1 implies s[j] != 13 by {
                    if j > 0 {
                        assert(s[j] == r[j - 1]);
                    }
                }
            },
            Option::None => {
                assert forall|j: int| 0 <= j < s.len() implies s[j] != 13 by {
                    if j > 0 {
                        assert(s[j] == r[j - 1]);
                    }
                }
            },
        }
    }
}

/// Take one line off the head of `s`: everything before the first CR, which
/// must be followed by LF.
pub open spec fn spec_read_line(s: Seq<u8>) -> SpecLine {
    match find_cr(s) {
        Option::None => SpecLine::MoreNeeded,
        Option::Some(i) => if i + 1 >= s.len() {
            SpecLine::MoreNeeded
        } else if s[i + 1] == 10 {
            SpecLine::Line(s.take(i), i + 2)
        } else {
            SpecLine::Bad
        },
    }
}

/// Result of decoding one frame from the head of a buffer.
pub ghost enum SpecDec {
    /// The decoded frame and the number of bytes its encoding occupied.
    Found(FrameModel, int),
    /// The buffer holds a prefix of an encoding: more input is needed.
    MoreNeeded,
    /// The buffer cannot be a prefix of any encoding.
    Bad,
}

/// Result of decoding a fixed count of consecutive frames.
pub ghost enum SpecDecMany {
    Found(Seq<FrameModel>, int),
    MoreNeeded,
    Bad,
}

/// Decode one frame from the head of `s`. Stateless and restartable: a short
/// buffer yields `MoreNeeded`, never `Bad`.
pub open spec fn sdec(s: Seq<u8>) -> SpecDec
    decreases s.len(), 0int, 0int,
{
    if s.len() == 0 {
        SpecDec::MoreNeeded
    } else {
        let tag = s[0];
        let r = s.drop_first();
        if tag == 43 || tag == 45 {
            match spec_read_line(r) {
                SpecLine::Line(t, c) => if token_ok(t) {
                    if tag == 43 {
                        SpecDec::Found(FrameModel::Simple(ascii_chars(t)), 1 + c)
                    } else {
                        SpecDec::Found(FrameModel::Error(ascii_chars(t)), 1 + c)
                    }
                } else {
                    SpecDec::Bad
                },
                SpecLine::MoreNeeded => SpecDec::MoreNeeded,
                SpecLine::Bad => SpecDec::Bad,
            }
        } else if tag == 58 {
            match spec_read_line(r) {
                SpecLine::Line(t, c) => if t.len() > 0 && all_digits(t) && dec_val(t)
                    <= u64::MAX {
                    SpecDec::Found(FrameModel::Integer(dec_val(t) as u64), 1 + c)
                } else {
                    SpecDec::Bad
                },
                SpecLine::MoreNeeded => SpecDec::MoreNeeded,
                SpecLine::Bad => SpecDec::Bad,
            }
        } else if tag == 36 {
            match spec_read_line(r) {
                SpecLine::Line(t, c) => if t.len() == 2 && t[0] == 45 && t[1] == 49 {
                    SpecDec::Found(FrameModel::Null, 1 + c)
                } else if t.len() > 0 && all_digits(t) && dec_val(t) <= usize::MAX {
                    let l = dec_val(t);
                    let body = r.skip(c);
                    if body.len() < l + 2 {
                        SpecDec::MoreNeeded
                    } else if body[l] == 13 && body[l + 1] == 10 {
                        SpecDec::Found(FrameModel::Bulk(body.take(l)), 1 + c + l + 2)
                    } else {
                        SpecDec::Bad
                    }
                } else {
                    SpecDec::Bad
                },
                SpecLine::MoreNeeded => SpecDec::MoreNeeded,
                SpecLine::Bad => SpecDec::Bad,
            }
        } else if tag == 42 {
            match spec_read_line(r) {
                SpecLine::Line(t, c) => if t.len() > 0 && all_digits(t) && dec_val(t)
                    <= usize::MAX {
                    // a read line always lies within the buffer; the bound
                    // keeps the recursion well founded
                    if 0 <= c <= r.len() {
                        match sdec_many(r.skip(c), dec_val(t) as nat) {
                            SpecDecMany::Found(ms, c2) => SpecDec::Found(
                                FrameModel::Array(ms),
                                1 + c + c2,
                            ),
                            SpecDecMany::MoreNeeded => SpecDec::MoreNeeded,
                            SpecDecMany::Bad => SpecDec::Bad,
                        }
                    } else {
                        SpecDec::Bad
                    }
                } else {
                    SpecDec::Bad
                },
                SpecLine::MoreNeeded => SpecDec::MoreNeeded,
                SpecLine::Bad => SpecDec::Bad,
            }
        } else {
            SpecDec::Bad
        }
    }
}

/// Decode exactly `n` consecutive frames from the head of `s`.
pub open spec fn sdec_many(s: Seq<u8>, n: nat) -> SpecDecMany
    decreases s.len(), 1int, n,
{
    if n == 0 {
        SpecDecMany::Found(Seq::empty(), 0)
    } else {
        match sdec(s) {
            // a found frame always occupies at least one byte of the buffer;
            // the bound keeps the recursion well founded
            SpecDec::Found(m, c) => if 0 < c <= s.len() {
                match sdec_many(s.skip(c), (n - 1) as nat) {
                    SpecDecMany::Found(ms, c2) => SpecDecMany::Found(seq![m] + ms, c + c2),
                    SpecDecMany::MoreNeeded => SpecDecMany::MoreNeeded,
                    SpecDecMany::Bad => SpecDecMany::Bad,
                }
            } else {
                SpecDecMany::Bad
            },
            SpecDec::MoreNeeded => SpecDecMany::MoreNeeded,
            SpecDec::Bad => SpecDecMany::Bad,
        }
    }
}


// ---------------------------------------------------------------------------
// The executable decoder
// ---------------------------------------------------------------------------

/// An ASCII token is valid UTF-8 and encodes exactly its bytes read as
/// characters.
pub proof fn lemma_token_chars(t: Seq<u8>)
    requires
        token_ok(t),
    ensures
        is_ascii_chars(ascii_chars(t)),
        encode_utf8(ascii_chars(t)) == t,
        valid_utf8(t),
        text_ok(ascii_chars(t)),
{
    let cs = ascii_chars(t);
    assert forall|i: int| 0 <= i < cs.len() implies '\0' <= #[trigger] cs[i] <= '\u{7f}' by {
        assert(t[i] < 128);
    }
    is_ascii_chars_encode_utf8(cs);
    assert(encode_utf8(cs) =~= t);
    vstd::utf8::encode_utf8_valid_utf8(cs);
    assert forall|i: int| 0 <= i < cs.len() implies cs[i] != '\r' && cs[i] != '\n' by {
        assert(t[i] != 13 && t[i] != 10);
    }
}

/// Relies on `core::str::from_utf8` and `str::to_owned`: `from_utf8` returns
/// `Ok` exactly when the bytes are valid UTF-8, and the returned string views
/// those same bytes, so its characters encode back to them.
#[verifier::external_body]
pub(crate) fn bytes_to_string(b: &[u8]) -> (r: Option<String>)
    ensures
        r is Some <==> valid_utf8(b@),
        r matches Some(s) ==> encode_utf8(s@) == b@,
{
    match core::str::from_utf8(b) {
        Ok(s) => Some(s.to_owned()),
        Err(_) => None,
    }
}

/// Build the string whose characters are the bytes of an ASCII token.
fn token_to_string(buf: &[u8], start: usize, end: usize) -> (r: String)
    requires
        start <= end <= buf@.len(),
        token_ok(buf@.subrange(start as int, end as int)),
    ensures
        r@ == ascii_chars(buf@.subrange(start as int, end as int)),
{
    let ghost t = buf@.subrange(start as int, end as int);
    proof {
        lemma_token_chars(t);
    }
    let piece = &buf[start..end];
    let r = bytes_to_string(piece);
    proof {
        let s0 = r->0;
        vstd::utf8::encode_utf8_decode_utf8(s0@);
        vstd::utf8::encode_utf8_decode_utf8(ascii_chars(t));
        assert(vstd::utf8::decode_utf8(encode_utf8(s0@)) == s0@);
        assert(vstd::utf8::decode_utf8(encode_utf8(ascii_chars(t))) == ascii_chars(t));
        assert(encode_utf8(s0@) == encode_utf8(ascii_chars(t)));
    }
    match r {
        Some(s0) => s0,
        None => {
            proof {
                assert(false);
            }
            String::new()
        },
    }
}

/// Outcome of scanning for one CR-LF-terminated line.
enum ScanOutcome {
    /// Token ends at `.0`; the line, terminator included, ends at `.1`.
    Token(usize, usize),
    Incomplete,
    Malformed,
}

/// Scan `buf` from `pos` for the next CR LF; the token is what stands before
/// it.
fn scan_line(buf: &[u8], pos: usize) -> (r: ScanOutcome)
    requires
        pos <= buf@.len(),
    ensures
        match r {
            ScanOutcome::Token(end, next) => {
                &&& pos <= end
                &&& end + 2 == next
                &&& next <= buf@.len()
                &&& spec_read_line(buf@.skip(pos as int)) == SpecLine::Line(
                    buf@.subrange(pos as int, end as int),
                    next - pos,
                )
            },
            ScanOutcome::Incomplete => spec_read_line(buf@.skip(pos as int))
                == SpecLine::MoreNeeded,
            ScanOutcome::Malformed => spec_read_line(buf@.skip(pos as int)) == SpecLine::Bad,
        },
{
    let ghost s = buf@.skip(pos as int);
    proof {
        assert(forall|j: int| 0 <= j < s.len() ==> s[j] == buf@[j + pos]);
        lemma_find_cr(s);
    }
    let n = buf.len();
    let mut i = pos;
    while i < n && *vstd::slice::slice_index_get(buf, i) != 13
        invariant
            pos <= i <= n,
            n == buf@.len(),
            forall|j: int| pos <= j < i ==> buf@[j] != 13,
        decreases n - i,
    {
        i = i + 1;
    }
    if i == n {
        // no CR in the buffer
        proof {
            if let Option::Some(k) = find_cr(s) {
                assert(s[k] == buf@[k + pos]);
            }
        }
        return ScanOutcome::Incomplete;
    }
    proof {
        assert(buf@[i as int] == 13);
        assert(s[i - pos] == 13);
        match find_cr(s) {
            Option::Some(k) => {
                if k < i - pos {
                    assert(s[k] == buf@[k + pos]);
                    assert(false);
                }
                if k > i - pos {
                    assert(false);
                }
            },
            Option::None => {
                assert(false);
            },
        }
        assert(find_cr(s) == Option::Some(i - pos));
    }
    if i + 1 == n {
        // CR is the last byte: the LF has not arrived yet
        return ScanOutcome::Incomplete;
    }
    if *vstd::slice::slice_index_get(buf, i + 1) == 10 {
        proof {
            assert(s[i + 1 - pos] == buf@[i + 1]);
            assert(s.take(i - pos) =~= buf@.subrange(pos as int, i as int));
        }
        ScanOutcome::Token(i, i + 2)
    } else {
        proof {
            assert(s[i + 1 - pos] == buf@[i + 1]);
        }
        ScanOutcome::Malformed
    }
}

/// Is every byte of `buf[start..end]` fit for a status or error line?
fn check_token(buf: &[u8], start: usize, end: usize) -> (r: bool)
    requires
        start <= end <= buf@.len(),
    ensures
        r == token_ok(buf@.subrange(start as int, end as int)),
{
    let ghost t = buf@.subrange(start as int, end as int);
    let mut i = start;
    while i < end
        invariant
            start <= i <= end <= buf@.len(),
            t == buf@.subrange(start as int, end as int),
            forall|j: int| 0 <= j < i - start ==> t[j] < 128 && t[j] != 13 && t[j] != 10,
        decreases end - i,
    {
        let b = *vstd::slice::slice_index_get(buf, i);
        proof {
            assert(t[i - start] == buf@[i as int]);
        }
        if b >= 128 || b == 13 || b == 10 {
            return false;
        }
        i = i + 1;
    }
    true
}

/// Read the decimal value of `buf[start..end]`, refusing anything that is not
/// a digit string whose value fits in a `u64`.
pub(crate) fn parse_digits(buf: &[u8], start: usize, end: usize) -> (r: Option<u64>)
    requires
        start <= end <= buf@.len(),
    ensures
        ({
            let t = buf@.subrange(start as int, end as int);
            match r {
                Some(v) => t.len() > 0 && all_digits(t) && dec_val(t) == v,
                None => !(t.len() > 0 && all_digits(t) && dec_val(t) <= u64::MAX),
            }
        }),
{
    let ghost t = buf@.subrange(start as int, end as int);
    if start == end {
        return None;
    }
    let mut acc: u64 = 0;
    let mut i = start;
    while i < end
        invariant
            start <= i <= end <= buf@.len(),
            t == buf@.subrange(start as int, end as int),
            all_digits(t.take(i - start)),
            acc == dec_val(t.take(i - start)),
        decreases end - i,
    {
        let b = *vstd::slice::slice_index_get(buf, i);
        proof {
            assert(t[i - start] == buf@[i as int]);
        }
        if b < 48 || b > 57 {
            return None;
        }
        let d = (b - 48) as u64;
        proof {
            lemma_dec_val_step(t, i - start);
        }
        let next_acc = match acc.checked_mul(10) {
            Some(x) => match x.checked_add(d) {
                Some(y) => y,
                None => {
                    proof {
                        overflow_tail(t, i - start);
                    }
                    return None;
                },
            },
            None => {
                proof {
                    assert(dec_val(t.take(i - start + 1)) == acc * 10 + (b - 48));
                    overflow_tail(t, i - start);
                }
                return None;
            },
        };
        acc = next_acc;
        i = i + 1;
    }
    proof {
        assert(t.take(t.len() as int) =~= t);
    }
    Some(acc)
}

/// If some prefix of a digit string already exceeds `u64::MAX`, so does the
/// whole string.
proof fn overflow_tail(t: Seq<u8>, k: int)
    requires
        0 <= k < t.len(),
        all_digits(t.take(k)),
        is_digit(t[k]),
        dec_val(t.take(k + 1)) > u64::MAX,
    ensures
        all_digits(t) ==> dec_val(t) > u64::MAX,
{
    if all_digits(t) {
        lemma_dec_val_monotone(t, k + 1, t.len() as int);
        assert(t.take(t.len() as int) =~= t);
    }
}

/// Result of attempting to decode one frame from a buffer.
#[derive(Debug, PartialEq, Eq)]
pub enum Decoded {
    /// A complete frame, and the index just past its encoding.
    Complete(Frame, usize),
    /// The buffer holds a prefix of an encoding: read more input and retry.
    Incomplete,
    /// The buffer cannot be a prefix of any encoding: a protocol error, fatal
    /// to the connection.
    Malformed,
}

/// Decode one frame from `buf`, starting at `pos`.
#[verifier::loop_isolation(false)]
#[verifier::rlimit(100)]
pub fn decode_at(buf: &[u8], pos: usize) -> (r: Decoded)
    requires
        pos <= buf@.len(),
    ensures
        ({
            let s = buf@.skip(pos as int);
            match r {
                Decoded::Complete(f, next) => pos < next <= buf@.len() && sdec(s)
                    == SpecDec::Found(f.model(), next - pos),
                Decoded::Incomplete => sdec(s) == SpecDec::MoreNeeded,
                Decoded::Malformed => sdec(s) == SpecDec::Bad,
            }
        }),
    decreases buf@.len() - pos,
{
    let ghost s = buf@.skip(pos as int);
    if pos == buf.len() {
        return Decoded::Incomplete;
    }
    let tag = *vstd::slice::slice_index_get(buf, pos);
    proof {
        assert(s[0] == tag);
        assert(s.drop_first() =~= buf@.skip(pos + 1));
    }
    let ghost rr = s.drop_first();
    if tag == 43 || tag == 45 {
        match scan_line(buf, pos + 1) {
            ScanOutcome::Token(end, next) => {
                let ghost t = buf@.subrange(pos + 1, end as int);
                if check_token(buf, pos + 1, end) {
                    let text = token_to_string(buf, pos + 1, end);
                    let f = if tag == 43 {
                        Frame::Simple(text)
                    } else {
                        Frame::Error(text)
                    };
                    proof {
                        assert(sdec(s) == SpecDec::Found(f.model(), next - pos));
                    }
                    Decoded::Complete(f, next)
                } else {
                    Decoded::Malformed
                }
            },
            ScanOutcome::Incomplete => Decoded::Incomplete,
            ScanOutcome::Malformed => Decoded::Malformed,
        }
    } else if tag == 58 {
        match scan_line(buf, pos + 1) {
            ScanOutcome::Token(end, next) => {
                match parse_digits(buf, pos + 1, end) {
                    Some(v) => {
                        proof {
                            assert(sdec(s) == SpecDec::Found(FrameModel::Integer(v), next - pos));
                        }
                        Decoded::Complete(Frame::Integer(v), next)
                    },
                    None => Decoded::Malformed,
                }
            },
            ScanOutcome::Incomplete => Decoded::Incomplete,
            ScanOutcome::Malformed => Decoded::Malformed,
        }
    } else if tag == 36 {
        match scan_line(buf, pos + 1) {
            ScanOutcome::Token(end, next) => {
                let ghost t = buf@.subrange(pos + 1, end as int);
                let is_null_token = end - (pos + 1) == 2
                    && *vstd::slice::slice_index_get(buf, pos + 1) == 45
                    && *vstd::slice::slice_index_get(buf, pos + 2) == 49;
                if is_null_token {
                    proof {
                        assert(t[0] == buf@[pos + 1] && t[1] == buf@[pos + 2]);
                        assert(sdec(s) == SpecDec::Found(FrameModel::Null, next - pos));
                    }
                    Decoded::Complete(Frame::Null, next)
                } else {
                    proof {
                        if t.len() == 2 && t[0] == 45 && t[1] == 49 {
                            assert(buf@[pos + 1] == t[0] && buf@[pos + 2] == t[1]);
                            assert(false);
                        }
                    }
                    match parse_digits(buf, pos + 1, end) {
                        Some(v) => {
                            if v > usize::MAX as u64 {
                                return Decoded::Malformed;
                            }
                            let l = v as usize;
                            let ghost body = rr.skip(next - (pos + 1));
                            proof {
                                assert(body =~= buf@.skip(next as int));
                            }
                            // is the whole payload, with its terminator, here?
                            let avail = buf.len() - next;
                            if avail < l || avail - l < 2 {
                                proof {
                                    assert(body.len() < l + 2);
                                }
                                return Decoded::Incomplete;
                            }
                            if *vstd::slice::slice_index_get(buf, next + l) == 13
                                && *vstd::slice::slice_index_get(buf, next + l + 1) == 10 {
                                let payload = slice_to_vec(&buf[next..next + l]);
                                proof {
                                    assert(body[l as int] == buf@[next + l]);
                                    assert(body[l + 1] == buf@[next + l + 1]);
                                    assert(payload@ =~= body.take(l as int));
                                    assert(sdec(s) == SpecDec::Found(
                                        FrameModel::Bulk(payload@),
                                        (next + l + 2) - pos,
                                    ));
                                }
                                Decoded::Complete(Frame::Bulk(payload), next + l + 2)
                            } else {
                                proof {
                                    assert(body[l as int] == buf@[next + l]);
                                    assert(body[l + 1] == buf@[next + l + 1]);
                                }
                                Decoded::Malformed
                            }
                        },
                        None => Decoded::Malformed,
                    }
                }
            },
            ScanOutcome::Incomplete => Decoded::Incomplete,
            ScanOutcome::Malformed => Decoded::Malformed,
        }
    } else if tag == 42 {
        match scan_line(buf, pos + 1) {
            ScanOutcome::Token(end, next) => {
                match parse_digits(buf, pos + 1, end) {
                    Some(v) => {
                        if v > usize::MAX as u64 {
                            return Decoded::Malformed;
                        }
                        let n = v as usize;
                        let ghost c = next - (pos + 1);
                        proof {
                            assert(rr.skip(c) =~= buf@.skip(next as int));
                        }
                        let mut elems: Vec<Frame> = Vec::new();
                        let mut cur = next;
                        let mut k: usize = 0;
                        proof {
                            assert(models_of(elems@) =~= Seq::<FrameModel>::empty());
                        }
                        while k < n
                            invariant
                                0 <= k <= n,
                                pos < next <= cur <= buf@.len(),
                                elems@.len() == k,
                                ({
                                    let tail = sdec_many(buf@.skip(cur as int), (n - k) as nat);
                                    let whole = sdec_many(buf@.skip(next as int), n as nat);
                                    match tail {
                                        SpecDecMany::Found(ms2, c2) => whole
                                            == SpecDecMany::Found(
                                            models_of(elems@) + ms2,
                                            (cur - next) + c2,
                                        ),
                                        SpecDecMany::MoreNeeded => whole
                                            == SpecDecMany::MoreNeeded,
                                        SpecDecMany::Bad => whole == SpecDecMany::Bad,
                                    }
                                }),
                            decreases n - k,
                        {
                            match decode_at(buf, cur) {
                                Decoded::Complete(f, nx) => {
                                    proof {
                                        let tail = buf@.skip(cur as int);
                                        assert(sdec(tail) == SpecDec::Found(
                                            f.model(),
                                            nx - cur,
                                        ));
                                        assert(tail.skip(nx - cur) =~= buf@.skip(nx as int));
                                        lemma_models_of(elems@);
                                        lemma_models_of(elems@.push(f));
                                        assert(models_of(elems@.push(f)) =~= models_of(elems@)
                                            + seq![f.model()]);
                                    }
                                    let ghost old_elems = elems@;
                                    elems.push(f);
                                    proof {
                                        let rest = sdec_many(
                                            buf@.skip(nx as int),
                                            (n - k - 1) as nat,
                                        );
                                        match rest {
                                            SpecDecMany::Found(ms3, c3) => {
                                                assert(models_of(old_elems) + (seq![f.model()]
                                                    + ms3) =~= models_of(elems@) + ms3);
                                            },
                                            SpecDecMany::MoreNeeded => {},
                                            SpecDecMany::Bad => {},
                                        }
                                    }
                                    cur = nx;
                                    k = k + 1;
                                },
                                Decoded::Incomplete => {
                                    return Decoded::Incomplete;
                                },
                                Decoded::Malformed => {
                                    return Decoded::Malformed;
                                },
                            }
                        }
                        proof {
                            assert(sdec_many(buf@.skip(cur as int), 0) == SpecDecMany::Found(
                                Seq::<FrameModel>::empty(),
                                0,
                            ));
                            assert(models_of(elems@) + Seq::<FrameModel>::empty() =~= models_of(
                                elems@,
                            ));
                            assert(sdec(s) == SpecDec::Found(
                                FrameModel::Array(models_of(elems@)),
                                cur - pos,
                            ));
                        }
                        Decoded::Complete(Frame::Array(elems), cur)
                    },
                    None => Decoded::Malformed,
                }
            },
            ScanOutcome::Incomplete => Decoded::Incomplete,
            ScanOutcome::Malformed => Decoded::Malformed,
        }
    } else {
        Decoded::Malformed
    }
}


// ---------------------------------------------------------------------------
// The round trip: decoding an encoding yields the frame that was encoded
// ---------------------------------------------------------------------------

/// Reading a line finds exactly the token that was written, whatever follows.
proof fn lemma_read_line_token(t: Seq<u8>, rest: Seq<u8>)
    requires
        forall|i: int| 0 <= i < t.len() ==> t[i] != 13,
    ensures
        spec_read_line(t + seq![13u8, 10u8] + rest) == SpecLine::Line(t, t.len() as int + 2),
{
    let s = t + seq![13u8, 10u8] + rest;
    let n = t.len() as int;
    assert(s[n] == 13);
    assert(s[n + 1] == 10);
    assert(forall|j: int| 0 <= j < n ==> s[j] == t[j]);
    lemma_find_cr(s);
    match find_cr(s) {
        Option::Some(k) => {
            if k < n {
                assert(s[k] == t[k]);
                assert(false);
            }
            if k > n {
                assert(false);
            }
            assert(k == n);
            assert(s.take(n) =~= t);
        },
        Option::None => {
            assert(false);
        },
    }
}

/// A frame's encoding is never empty.
proof fn lemma_senc_len_pos(m: FrameModel)
    ensures
        senc(m).len() >= 1,
{
}

/// Decoding the encoding of a well-formed frame, with anything at all
/// appended, finds exactly that frame and consumes exactly its encoding.
#[verifier::rlimit(100)]
pub proof fn lemma_round_trip_at(m: FrameModel, rest: Seq<u8>)
    requires
        m.wf(),
    ensures
        sdec(senc(m) + rest) == SpecDec::Found(m, senc(m).len() as int),
    decreases m, 1int,
{
    let s = senc(m) + rest;
    match m {
        FrameModel::Simple(t) => {
            let tb = ascii_bytes(t);
            assert(s[0] == 43);
            assert(s.drop_first() =~= tb + seq![13u8, 10u8] + rest);
            assert forall|i: int| 0 <= i < tb.len() implies tb[i] < 128 && tb[i] != 13 && tb[i]
                != 10 by {
                assert(t[i] <= '\u{7f}');
                assert(t[i] != '\r' && t[i] != '\n');
            }
            lemma_read_line_token(tb, rest);
            assert(ascii_chars(tb) =~= t);
        },
        FrameModel::Error(t) => {
            let tb = ascii_bytes(t);
            assert(s[0] == 45);
            assert(s.drop_first() =~= tb + seq![13u8, 10u8] + rest);
            assert forall|i: int| 0 <= i < tb.len() implies tb[i] < 128 && tb[i] != 13 && tb[i]
                != 10 by {
                assert(t[i] <= '\u{7f}');
                assert(t[i] != '\r' && t[i] != '\n');
            }
            lemma_read_line_token(tb, rest);
            assert(ascii_chars(tb) =~= t);
        },
        FrameModel::Integer(n) => {
            let tb = dec_digits(n as nat);
            lemma_dec_digits_shape(n as nat);
            lemma_dec_digits_val(n as nat);
            assert(s[0] == 58);
            assert(s.drop_first() =~= tb + seq![13u8, 10u8] + rest);
            assert(forall|i: int| 0 <= i < tb.len() ==> tb[i] != 13);
            lemma_read_line_token(tb, rest);
        },
        FrameModel::Bulk(b) => {
            let tb = dec_digits(b.len());
            lemma_dec_digits_shape(b.len());
            lemma_dec_digits_val(b.len());
            assert(s[0] == 36);
            let r = s.drop_first();
            assert(r =~= tb + seq![13u8, 10u8] + (b + seq![13u8, 10u8] + rest));
            assert(forall|i: int| 0 <= i < tb.len() ==> tb[i] != 13);
            lemma_read_line_token(tb, b + seq![13u8, 10u8] + rest);
            let c = tb.len() + 2;
            assert(spec_read_line(r) == SpecLine::Line(tb, c as int));
            // the length token is digits, so it is not the null token "-1"
            assert(tb[0] != 45);
            let body = r.skip(c as int);
            assert(body =~= b + seq![13u8, 10u8] + rest);
            let l = b.len() as int;
            assert(body.len() >= l + 2);
            assert(body[l] == 13 && body[l + 1] == 10);
            assert(body.take(l) =~= b);
        },
        FrameModel::Null => {
            assert(s[0] == 36);
            let r = s.drop_first();
            let tb = seq![45u8, 49u8];
            assert(r =~= tb + seq![13u8, 10u8] + rest);
            assert(forall|i: int| 0 <= i < tb.len() ==> tb[i] != 13);
            lemma_read_line_token(tb, rest);
            assert(spec_read_line(r) == SpecLine::Line(tb, 4));
        },
        FrameModel::Array(ms) => {
            let tb = dec_digits(ms.len());
            lemma_dec_digits_shape(ms.len());
            lemma_dec_digits_val(ms.len());
            assert(s[0] == 42);
            let r = s.drop_first();
            assert(r =~= tb + seq![13u8, 10u8] + (senc_many(ms) + rest));
            assert(forall|i: int| 0 <= i < tb.len() ==> tb[i] != 13);
            lemma_read_line_token(tb, senc_many(ms) + rest);
            let c = tb.len() + 2;
            assert(spec_read_line(r) == SpecLine::Line(tb, c as int));
            assert(0 <= c <= r.len());
            assert(r.skip(c as int) =~= senc_many(ms) + rest);
            lemma_round_trip_many(ms, rest);
            assert(sdec_many(r.skip(c as int), ms.len()) == SpecDecMany::Found(
                ms,
                senc_many(ms).len() as int,
            ));
        },
    }
}

/// Decoding the concatenated encodings of well-formed frames, with anything
/// appended, finds exactly those frames.
pub proof fn lemma_round_trip_many(ms: Seq<FrameModel>, rest: Seq<u8>)
    requires
        wf_all(ms),
    ensures
        sdec_many(senc_many(ms) + rest, ms.len()) == SpecDecMany::Found(
            ms,
            senc_many(ms).len() as int,
        ),
    decreases ms, 0int,
{
    if ms.len() == 0 {
        assert(senc_many(ms) + rest =~= rest);
        assert(senc_many(ms).len() == 0);
        assert(ms =~= Seq::<FrameModel>::empty());
    } else {
        let s = senc_many(ms) + rest;
        let tail_enc = senc_many(ms.drop_first());
        assert(s =~= senc(ms[0]) + (tail_enc + rest));
        lemma_round_trip_at(ms[0], tail_enc + rest);
        let c = senc(ms[0]).len() as int;
        lemma_senc_len_pos(ms[0]);
        assert(sdec(s) == SpecDec::Found(ms[0], c));
        assert(0 < c <= s.len());
        assert(s.skip(c) =~= tail_enc + rest);
        lemma_round_trip_many(ms.drop_first(), rest);
        assert(seq![ms[0]] + ms.drop_first() =~= ms);
    }
}

/// The round trip on a whole buffer: encode, then decode, and the same frame
/// comes back, consuming the buffer exactly.
pub proof fn lemma_round_trip(m: FrameModel)
    requires
        m.wf(),
    ensures
        sdec(senc(m)) == SpecDec::Found(m, senc(m).len() as int),
{
    lemma_round_trip_at(m, Seq::empty());
    assert(senc(m) + Seq::<u8>::empty() =~= senc(m));
}


// ---------------------------------------------------------------------------
// Checking well-formedness at run time
// ---------------------------------------------------------------------------

/// Is `s` fit for a status or error line?
fn check_text(s: &String) -> (r: bool)
    ensures
        r == text_ok(s@),
{
    let bytes = s.as_str().as_bytes();
    let clean = check_token(bytes, 0, bytes.len());
    proof {
        assert(bytes@.subrange(0, bytes@.len() as int) =~= bytes@);
    }
    if clean {
        proof {
            lemma_token_chars(bytes@);
            vstd::utf8::encode_utf8_decode_utf8(s@);
            vstd::utf8::encode_utf8_decode_utf8(ascii_chars(bytes@));
            assert(encode_utf8(s@) == encode_utf8(ascii_chars(bytes@)));
            assert(s@ == ascii_chars(bytes@));
        }
        true
    } else {
        proof {
            if text_ok(s@) {
                is_ascii_chars_encode_utf8(s@);
                assert forall|i: int| 0 <= i < bytes@.len() implies bytes@[i] < 128 && bytes@[i]
                    != 13 && bytes@[i] != 10 by {
                    assert(bytes@[i] == s@[i] as u8);
                    assert(s@[i] <= '\u{7f}');
                    assert(s@[i] != '\r' && s@[i] != '\n');
                }
                assert(false);
            }
        }
        false
    }
}

impl Frame {
    /// Does this frame satisfy the codec's well-formedness condition? A frame
    /// built from arbitrary input may carry status text that cannot ride on a
    /// status line; such a frame is refused rather than encoded.
    #[verifier::loop_isolation(false)]
    pub fn wf_check(&self) -> (r: bool)
        ensures
            r == self.model().wf(),
        decreases *self,
    {
        match self {
            Frame::Simple(s) => check_text(s),
            Frame::Error(s) => check_text(s),
            Frame::Integer(_) => true,
            Frame::Bulk(b) => {
                proof {
                    vstd::std_specs::vec::axiom_spec_len(b);
                }
                true
            },
            Frame::Null => true,
            Frame::Array(a) => {
                let ghost ms = models_of(a@);
                proof {
                    lemma_models_of(a@);
                    lemma_wf_all(ms);
                    vstd::std_specs::vec::axiom_spec_len(a);
                }
                let mut i: usize = 0;
                while i < a.len()
                    invariant
                        0 <= i <= a.len(),
                        forall|j: int| 0 <= j < i ==> ms[j].wf(),
                    decreases a.len() - i,
                {
                    proof {
                        assert(*a == (*self)->Array_0);
                        assert(decreases_to!(*self => (*self)->Array_0));
                        assert(decreases_to!(*a => a@));
                        assert(decreases_to!(a@ => a@[i as int]));
                    }
                    if !a[i].wf_check() {
                        proof {
                            assert(ms[i as int] == a@[i as int].model());
                            assert(!wf_all(ms));
                        }
                        return false;
                    }
                    i = i + 1;
                }
                proof {
                    assert(wf_all(ms));
                }
                true
            },
        }
    }
}

// ---------------------------------------------------------------------------
// One step of the buffered read loop
// ---------------------------------------------------------------------------

/// What a connection should do after looking at its read buffer.
#[derive(Debug, PartialEq, Eq)]
pub enum ReadOutcome {
    /// A complete frame, ending at the given buffer index: hand the frame on
    /// and discard that many bytes from the front of the buffer.
    Ready(Frame, usize),
    /// No complete frame yet: read more bytes from the stream and retry.
    NeedMore,
    /// Clean end of stream with an empty buffer: the peer is done, no frame.
    Closed,
    /// End of stream in the middle of a buffered frame: truncation, fatal.
    Truncated,
    /// The buffer cannot be a prefix of any frame encoding: a protocol error,
    /// fatal to the connection.
    Corrupt,
}

/// Decide what a connection does with its buffer: decode a frame if one is
/// complete, ask for more input if not, and classify end-of-stream.
pub fn read_step(buf: &[u8], eof: bool) -> (r: ReadOutcome)
    ensures
        match r {
            ReadOutcome::Ready(f, used) => 0 < used <= buf@.len() && sdec(buf@) == SpecDec::Found(
                f.model(),
                used as int,
            ),
            ReadOutcome::NeedMore => sdec(buf@) == SpecDec::MoreNeeded && !eof,
            ReadOutcome::Closed => eof && buf@.len() == 0,
            ReadOutcome::Truncated => eof && buf@.len() > 0 && sdec(buf@) == SpecDec::MoreNeeded,
            ReadOutcome::Corrupt => sdec(buf@) == SpecDec::Bad,
        },
{
    proof {
        assert(buf@.skip(0) =~= buf@);
    }
    match decode_at(buf, 0) {
        Decoded::Complete(f, next) => ReadOutcome::Ready(f, next),
        Decoded::Incomplete => {
            if !eof {
                ReadOutcome::NeedMore
            } else if buf.len() == 0 {
                ReadOutcome::Closed
            } else {
                ReadOutcome::Truncated
            }
        },
        Decoded::Malformed => ReadOutcome::Corrupt,
    }
}

/// Reading a line from a strict prefix of `t + CR LF` never fails: it only
/// asks for more input.
proof fn lemma_read_line_prefix(t: Seq<u8>, cut: int)
    requires
        forall|i: int| 0 <= i < t.len() ==> t[i] != 13,
        0 <= cut < t.len() + 2,
    ensures
        spec_read_line((t + seq![13u8, 10u8]).take(cut)) == SpecLine::MoreNeeded,
{
    let s = (t + seq![13u8, 10u8]).take(cut);
    lemma_find_cr(s);
    if cut <= t.len() {
        // the terminator is not there yet, and the token itself has no CR
        match find_cr(s) {
            Option::Some(k) => {
                assert(s[k] == t[k]);
                assert(false);
            },
            Option::None => {},
        }
    } else {
        // the CR is the last byte of the prefix
        assert(cut == t.len() + 1);
        assert(s[t.len() as int] == 13);
        match find_cr(s) {
            Option::Some(k) => {
                if k < t.len() {
                    assert(s[k] == t[k]);
                    assert(false);
                }
                assert(k == t.len());
            },
            Option::None => {
                assert(false);
            },
        }
    }
}

/// Decoding any strict prefix of a well-formed frame's encoding reports
/// "more input needed", never an error: the decoder is restartable on a
/// partially received stream.
#[verifier::rlimit(100)]
pub proof fn lemma_prefix_incomplete(m: FrameModel, cut: int)
    requires
        m.wf(),
        0 <= cut < senc(m).len(),
    ensures
        sdec(senc(m).take(cut)) == SpecDec::MoreNeeded,
    decreases m, 1int,
{
    let e = senc(m);
    let s = e.take(cut);
    if cut == 0 {
        assert(s.len() == 0);
    } else {
        match m {
            FrameModel::Simple(t) => {
                let tb = ascii_bytes(t);
                assert forall|i: int| 0 <= i < tb.len() implies tb[i] != 13 by {
                    assert(t[i] != '\r');
                    assert(t[i] <= '\u{7f}');
                }
                assert(s[0] == 43);
                assert(s.drop_first() =~= (tb + seq![13u8, 10u8]).take(cut - 1));
                lemma_read_line_prefix(tb, cut - 1);
            },
            FrameModel::Error(t) => {
                let tb = ascii_bytes(t);
                assert forall|i: int| 0 <= i < tb.len() implies tb[i] != 13 by {
                    assert(t[i] != '\r');
                    assert(t[i] <= '\u{7f}');
                }
                assert(s[0] == 45);
                assert(s.drop_first() =~= (tb + seq![13u8, 10u8]).take(cut - 1));
                lemma_read_line_prefix(tb, cut - 1);
            },
            FrameModel::Integer(n) => {
                let tb = dec_digits(n as nat);
                lemma_dec_digits_shape(n as nat);
                assert(s[0] == 58);
                assert(s.drop_first() =~= (tb + seq![13u8, 10u8]).take(cut - 1));
                lemma_read_line_prefix(tb, cut - 1);
            },
            FrameModel::Null => {
                let tb = seq![45u8, 49u8];
                assert(s[0] == 36);
                assert(s.drop_first() =~= (tb + seq![13u8, 10u8]).take(cut - 1));
                lemma_read_line_prefix(tb, cut - 1);
            },
            FrameModel::Bulk(b) => {
                let tb = dec_digits(b.len());
                lemma_dec_digits_shape(b.len());
                lemma_dec_digits_val(b.len());
                assert(s[0] == 36);
                let header = 1 + tb.len() + 2;
                if cut < header {
                    assert(s.drop_first() =~= (tb + seq![13u8, 10u8]).take(cut - 1));
                    lemma_read_line_prefix(tb, cut - 1);
                } else {
                    // the length line is complete; part of the payload follows
                    let r = s.drop_first();
                    let body_cut = cut - header;
                    assert(r =~= tb + seq![13u8, 10u8] + (b + seq![13u8, 10u8]).take(body_cut));
                    lemma_read_line_token(tb, (b + seq![13u8, 10u8]).take(body_cut));
                    let c = tb.len() + 2;
                    assert(spec_read_line(r) == SpecLine::Line(tb, c as int));
                    assert(tb[0] != 45);
                    let body = r.skip(c as int);
                    assert(body =~= (b + seq![13u8, 10u8]).take(body_cut));
                    assert(body.len() == body_cut);
                    assert(body_cut < b.len() + 2);
                }
            },
            FrameModel::Array(ms) => {
                let tb = dec_digits(ms.len());
                lemma_dec_digits_shape(ms.len());
                lemma_dec_digits_val(ms.len());
                assert(s[0] == 42);
                let header = 1 + tb.len() + 2;
                if cut < header {
                    assert(s.drop_first() =~= (tb + seq![13u8, 10u8]).take(cut - 1));
                    lemma_read_line_prefix(tb, cut - 1);
                } else {
                    // the count line is complete; some element bytes follow
                    let r = s.drop_first();
                    let many_cut = cut - header;
                    assert(r =~= tb + seq![13u8, 10u8] + senc_many(ms).take(many_cut));
                    lemma_read_line_token(tb, senc_many(ms).take(many_cut));
                    let c = tb.len() + 2;
                    assert(spec_read_line(r) == SpecLine::Line(tb, c as int));
                    assert(0 <= c <= r.len());
                    assert(r.skip(c as int) =~= senc_many(ms).take(many_cut));
                    assert(many_cut < senc_many(ms).len());
                    lemma_prefix_incomplete_many(ms, many_cut);
                }
            },
        }
    }
}

/// Decoding a fixed count of frames from a strict prefix of their
/// concatenated encodings reports "more input needed".
proof fn lemma_prefix_incomplete_many(ms: Seq<FrameModel>, cut: int)
    requires
        wf_all(ms),
        0 <= cut < senc_many(ms).len(),
    ensures
        sdec_many(senc_many(ms).take(cut), ms.len()) == SpecDecMany::MoreNeeded,
    decreases ms, 0int,
{
    let s = senc_many(ms).take(cut);
    let head = senc(ms[0]);
    let tail = senc_many(ms.drop_first());
    assert(senc_many(ms) == head + tail);
    lemma_senc_len_pos(ms[0]);
    if cut < head.len() {
        assert(s =~= head.take(cut));
        lemma_prefix_incomplete(ms[0], cut);
        if cut > 0 {
            assert(sdec(s) == SpecDec::MoreNeeded);
        } else {
            assert(s.len() == 0);
        }
    } else if cut == head.len() {
        // exactly one whole element: the next element is entirely missing
        assert(s =~= head);
        lemma_round_trip(ms[0]);
        assert(sdec(s) == SpecDec::Found(ms[0], head.len() as int));
        assert(s.skip(head.len() as int) =~= Seq::<u8>::empty());
        assert(tail.len() > 0);
        if ms.drop_first().len() == 0 {
            assert(tail.len() == 0);
        }
        assert(ms.len() >= 2);
        assert(Seq::<u8>::empty().len() == 0);
        assert(sdec(Seq::<u8>::empty()) == SpecDec::MoreNeeded);
        assert((ms.len() - 1) as nat != 0);
        assert(sdec_many(Seq::<u8>::empty(), (ms.len() - 1) as nat) == SpecDecMany::MoreNeeded);
    } else {
        assert(s =~= head + tail.take(cut - head.len()));
        lemma_round_trip_at(ms[0], tail.take(cut - head.len()));
        assert(sdec(s) == SpecDec::Found(ms[0], head.len() as int));
        assert(s.skip(head.len() as int) =~= tail.take(cut - head.len()));
        lemma_prefix_incomplete_many(ms.drop_first(), cut - head.len());
    }
}

} // verus!
