//! Commands: the closed set of verbs the server understands, the parser that
//! turns a request array into one, and the dispatcher that runs it against
//! the store and builds the reply frame.
//!
//! The verb token is case-normalized byte by byte over the ASCII range
//! before it is matched, so `get`, `Get` and `GET` name the same command.

use crate::frame::{
    all_digits, ascii_bytes, dec_val, is_digit, parse_digits, Frame, FrameModel,
};
use crate::parse::{as_blob, as_int, as_text, Parse};
use crate::store::{first_with_data, has_data, key_views, Db, Namespace};
use crate::frame::models_of;
use vstd::prelude::*;
use vstd::string::{StrSliceExecFns, StringExecFns};
use vstd::utf8::{encode_utf8, is_ascii_chars, is_ascii_chars_encode_utf8};

verus! {

/// A parsed request: one verb with its typed arguments. Timeouts are carried
/// in milliseconds.
#[derive(Debug)]
pub enum Command {
    Select(u64),
    Get(String),
    SetVal(String, Vec<u8>),
    Ping,
    Exists(String),
    RPush(String, Vec<u8>),
    LPush(String, Vec<u8>),
    BLPop(Vec<String>, u64),
    BRPop(Vec<String>, u64),
}

/// The mathematical value of a [`Command`].
pub ghost enum CmdModel {
    Select(u64),
    Get(Seq<char>),
    SetVal(Seq<char>, Seq<u8>),
    Ping,
    Exists(Seq<char>),
    RPush(Seq<char>, Seq<u8>),
    LPush(Seq<char>, Seq<u8>),
    BLPop(Seq<Seq<char>>, u64),
    BRPop(Seq<Seq<char>>, u64),
}

impl Command {
    /// The abstract value of this command.
    pub open spec fn model(self) -> CmdModel {
        match self {
            Command::Select(n) => CmdModel::Select(n),
            Command::Get(k) => CmdModel::Get(k@),
            Command::SetVal(k, v) => CmdModel::SetVal(k@, v@),
            Command::Ping => CmdModel::Ping,
            Command::Exists(k) => CmdModel::Exists(k@),
            Command::RPush(k, v) => CmdModel::RPush(k@, v@),
            Command::LPush(k, v) => CmdModel::LPush(k@, v@),
            Command::BLPop(ks, t) => CmdModel::BLPop(key_views(ks@), t),
            Command::BRPop(ks, t) => CmdModel::BRPop(key_views(ks@), t),
        }
    }
}

// ---------------------------------------------------------------------------
// The grammar, as mathematical functions
// ---------------------------------------------------------------------------

/// ASCII upper-casing of one byte; bytes outside `a`..`z` pass unchanged.
pub open spec fn ascii_upper(b: u8) -> u8 {
    if 97 <= b <= 122 {
        (b - 32) as u8
    } else {
        b
    }
}

/// ASCII upper-casing of a byte string.
pub open spec fn upper_bytes(s: Seq<u8>) -> Seq<u8> {
    s.map_values(|b: u8| ascii_upper(b))
}

/// The case-normalized verb token of a request's first element: the UTF-8
/// bytes of its text, upper-cased over the ASCII range.
pub open spec fn verb_bytes(m: FrameModel) -> Option<Seq<u8>> {
    match as_text(m) {
        Option::Some(t) => Option::Some(upper_bytes(encode_utf8(t))),
        Option::None => Option::None,
    }
}

/// Index of the first decimal point in a timeout token.
pub open spec fn find_dot(s: Seq<u8>) -> Option<int>
    decreases s.len(),
{
    if s.len() == 0 {
        Option::None
    } else if s[0] == 46 {
        Option::Some(0)
    } else {
        match find_dot(s.drop_first()) {
            Option::Some(i) => Option::Some(i + 1),
            Option::None => Option::None,
        }
    }
}

/// `find_dot` finds exactly the first decimal point.
pub proof fn lemma_find_dot(s: Seq<u8>)
    ensures
        match find_dot(s) {
            Option::Some(i) => 0 <= i < s.len() && s[i] == 46 && (forall|j: int|
                0 <= j < i ==> s[j] != 46),
            Option::None => forall|j: int| 0 <= j < s.len() ==> s[j] != 46,
        },
    decreases s.len(),
{
    if s.len() > 0 && s[0] != 46 {
        let r = s.drop_first();
        lemma_find_dot(r);
        assert(forall|j: int| 0 <= j < r.len() ==> r[j] == s[j + 1]);
        match find_dot(r) {
            Option::Some(i) => {
                assert(s[i + 1] == r[i]);
                assert forall|j: int| 0 <= j < i + 1 implies s[j] != 46 by {
                    if j > 0 {
                        assert(s[j] == r[j - 1]);
                    }
                }
            },
            Option::None => {
                assert forall|j: int| 0 <= j < s.len() implies s[j] != 46 by {
                    if j > 0 {
                        assert(s[j] == r[j - 1]);
                    }
                }
            },
        }
    }
}

/// The value of a fraction token, scaled to milliseconds: its first three
/// digits, padded with zeros on the right.
pub open spec fn frac_millis(f: Seq<u8>) -> int {
    if f.len() >= 3 {
        dec_val(f.take(3))
    } else if f.len() == 2 {
        dec_val(f) * 10
    } else if f.len() == 1 {
        dec_val(f) * 100
    } else {
        0
    }
}

/// A timeout written in seconds, with an optional fraction, read as whole
/// milliseconds. The fraction is truncated beyond millisecond precision, and
/// a value too large for 64 bits of milliseconds saturates.
pub open spec fn millis_of(b: Seq<u8>) -> Option<u64> {
    match find_dot(b) {
        Option::None => if b.len() > 0 && all_digits(b) {
            Option::Some(sat64(dec_val(b) * 1000))
        } else {
            Option::None
        },
        Option::Some(i) => {
            let ip = b.take(i);
            let fp = b.skip(i + 1);
            if ip.len() + fp.len() > 0 && all_digits(ip) && all_digits(fp) {
                Option::Some(sat64(dec_val(ip) * 1000 + frac_millis(fp)))
            } else {
                Option::None
            }
        },
    }
}

/// Clamp a non-negative mathematical integer into a `u64`.
pub open spec fn sat64(n: int) -> u64 {
    if n > u64::MAX {
        u64::MAX
    } else {
        n as u64
    }
}

/// The text of each element, elementwise; meaningful where every element
/// coerces to text.
pub open spec fn texts_of(ms: Seq<FrameModel>) -> Seq<Seq<char>>
    decreases ms.len(),
{
    if ms.len() == 0 {
        Seq::empty()
    } else {
        seq![as_text(ms[0])->0] + texts_of(ms.drop_first())
    }
}

/// `texts_of` is the elementwise text of the elements.
pub proof fn lemma_texts_of(ms: Seq<FrameModel>)
    ensures
        texts_of(ms).len() == ms.len(),
        forall|i: int| 0 <= i < ms.len() ==> texts_of(ms)[i] == as_text(ms[i])->0,
    decreases ms.len(),
{
    if ms.len() > 0 {
        lemma_texts_of(ms.drop_first());
    }
}

/// The arguments of a blocking pop: the scan keys come first, the timeout in
/// seconds stands last. Every element must coerce to text, and the last must
/// read as a timeout.
pub open spec fn pop_args(args: Seq<FrameModel>) -> Option<(Seq<Seq<char>>, u64)> {
    if args.len() >= 1 && (forall|i: int| 0 <= i < args.len() ==> as_text(args[i]) is Some)
        && millis_of(encode_utf8(as_text(args.last())->0)) is Some {
        Option::Some(
            (texts_of(args.drop_last()), millis_of(encode_utf8(as_text(args.last())->0))->0),
        )
    } else {
        Option::None
    }
}

/// What a request array parses to, if anything: the command grammar.
///
/// The verb is the first element's text, ASCII-upper-cased. Each command
/// demands its exact argument count: SELECT an index, GET and EXISTS a key,
/// SET and the pushes a key and a value, PING nothing; trailing elements are
/// arity errors. The blocking pops take their scan keys first and the
/// timeout in seconds last.
pub open spec fn parse_cmd(ms: Seq<FrameModel>) -> Option<CmdModel> {
    if ms.len() == 0 {
        Option::None
    } else {
        match verb_bytes(ms[0]) {
            Option::None => Option::None,
            Option::Some(vb) => {
                let args = ms.drop_first();
                if vb == ascii_bytes("SELECT"@) {
                    if args.len() == 1 && as_int(args[0]) is Some {
                        Option::Some(CmdModel::Select(as_int(args[0])->0))
                    } else {
                        Option::None
                    }
                } else if vb == ascii_bytes("GET"@) {
                    if args.len() == 1 && as_text(args[0]) is Some {
                        Option::Some(CmdModel::Get(as_text(args[0])->0))
                    } else {
                        Option::None
                    }
                } else if vb == ascii_bytes("SET"@) {
                    if args.len() == 2 && as_text(args[0]) is Some && as_blob(args[1]) is Some {
                        Option::Some(CmdModel::SetVal(as_text(args[0])->0, as_blob(args[1])->0))
                    } else {
                        Option::None
                    }
                } else if vb == ascii_bytes("PING"@) {
                    if args.len() == 0 {
                        Option::Some(CmdModel::Ping)
                    } else {
                        Option::None
                    }
                } else if vb == ascii_bytes("EXISTS"@) {
                    if args.len() == 1 && as_text(args[0]) is Some {
                        Option::Some(CmdModel::Exists(as_text(args[0])->0))
                    } else {
                        Option::None
                    }
                } else if vb == ascii_bytes("RPUSH"@) {
                    if args.len() == 2 && as_text(args[0]) is Some && as_blob(args[1]) is Some {
                        Option::Some(CmdModel::RPush(as_text(args[0])->0, as_blob(args[1])->0))
                    } else {
                        Option::None
                    }
                } else if vb == ascii_bytes("LPUSH"@) {
                    if args.len() == 2 && as_text(args[0]) is Some && as_blob(args[1]) is Some {
                        Option::Some(CmdModel::LPush(as_text(args[0])->0, as_blob(args[1])->0))
                    } else {
                        Option::None
                    }
                } else if vb == ascii_bytes("BLPOP"@) {
                    match pop_args(args) {
                        Option::Some((ks, t)) => Option::Some(CmdModel::BLPop(ks, t)),
                        Option::None => Option::None,
                    }
                } else if vb == ascii_bytes("BRPOP"@) {
                    match pop_args(args) {
                        Option::Some((ks, t)) => Option::Some(CmdModel::BRPop(ks, t)),
                        Option::None => Option::None,
                    }
                } else {
                    Option::None
                }
            },
        }
    }
}

// ---------------------------------------------------------------------------
// The executable parser
// ---------------------------------------------------------------------------

/// Are two byte strings equal?
fn bytes_eq(a: &[u8], b: &[u8]) -> (r: bool)
    ensures
        r == (a@ == b@),
{
    if a.len() != b.len() {
        return false;
    }
    let mut i: usize = 0;
    while i < a.len()
        invariant
            0 <= i <= a@.len(),
            a@.len() == b@.len(),
            forall|j: int| 0 <= j < i ==> a@[j] == b@[j],
        decreases a@.len() - i,
    {
        if *vstd::slice::slice_index_get(a, i) != *vstd::slice::slice_index_get(b, i) {
            return false;
        }
        i = i + 1;
    }
    proof {
        assert(a@ =~= b@);
    }
    true
}

/// The ASCII-upper-cased UTF-8 bytes of a string.
fn upper_vec(s: &String) -> (r: Vec<u8>)
    ensures
        r@ == upper_bytes(encode_utf8(s@)),
{
    let b = s.as_str().as_bytes();
    let mut out: Vec<u8> = Vec::new();
    let mut i: usize = 0;
    while i < b.len()
        invariant
            0 <= i <= b@.len(),
            out@.len() == i,
            forall|j: int| 0 <= j < i ==> out@[j] == ascii_upper(b@[j]),
        decreases b@.len() - i,
    {
        let c = *vstd::slice::slice_index_get(b, i);
        if 97 <= c && c <= 122 {
            out.push(c - 32);
        } else {
            out.push(c);
        }
        i = i + 1;
    }
    proof {
        assert(out@ =~= upper_bytes(encode_utf8(s@)));
    }
    out
}

/// `ascii_bytes` of an all-ASCII literal is its UTF-8 encoding.
proof fn lemma_ascii_literal(t: Seq<char>)
    requires
        is_ascii_chars(t),
    ensures
        encode_utf8(t) == ascii_bytes(t),
{
    is_ascii_chars_encode_utf8(t);
    assert(encode_utf8(t) =~= ascii_bytes(t));
}

/// Read a timeout token, written in seconds with an optional fraction, as
/// whole milliseconds.
fn parse_millis(b: &[u8]) -> (r: Option<u64>)
    ensures
        r == millis_of(b@),
{
    let n = b.len();
    let mut dot = n;
    let mut i: usize = 0;
    while i < n && dot == n
        invariant
            0 <= i <= n,
            dot <= n,
            n == b@.len(),
            dot == n ==> forall|j: int| 0 <= j < i ==> b@[j] != 46,
            dot < n ==> dot < i && b@[dot as int] == 46 && (forall|j: int|
                0 <= j < dot ==> b@[j] != 46),
        decreases n - i,
    {
        if *vstd::slice::slice_index_get(b, i) == 46 {
            dot = i;
        }
        i = i + 1;
    }
    if dot == n {
        // no decimal point: whole seconds
        proof {
            lemma_find_dot(b@);
            if let Option::Some(k) = find_dot(b@) {
                assert(b@[k] == 46);
                assert(false);
            }
        }
        if n == 0 || !check_digits(b, 0, n) {
            proof {
                assert(b@.subrange(0, n as int) =~= b@);
            }
            return None;
        }
        proof {
            assert(b@.subrange(0, n as int) =~= b@);
        }
        let secs = dec_sat(b, 0, n);
        proof {
            lemma_sat_scale(dec_val(b@), 0);
        }
        return Some(sat_mul_add(secs, 0));
    }
    proof {
        lemma_find_dot(b@);
        match find_dot(b@) {
            Option::Some(k) => {
                if k < dot {
                    assert(b@[k] == 46);
                    assert(false);
                }
                if k > dot {
                    assert(b@[dot as int] != 46);
                    assert(false);
                }
            },
            Option::None => {
                assert(b@[dot as int] != 46);
                assert(false);
            },
        }
        assert(find_dot(b@) == Option::Some(dot as int));
    }
    let ghost ip = b@.take(dot as int);
    let ghost fp = b@.skip(dot as int + 1);
    if n == 1 {
        // just "."
        proof {
            assert(ip.len() + fp.len() == 0);
        }
        return None;
    }
    if !check_digits(b, 0, dot) {
        return None;
    }
    if !check_digits(b, dot + 1, n) {
        return None;
    }
    proof {
        assert(ip == b@.subrange(0, dot as int));
        assert(fp =~= b@.subrange(dot as int + 1, n as int));
        assert(ip.len() + fp.len() > 0);
    }
    let secs = if dot == 0 {
        proof {
            assert(ip.len() == 0);
            assert(dec_val(ip) == 0);
        }
        0u64
    } else {
        dec_sat(b, 0, dot)
    };
    let flen = n - (dot + 1);
    let frac: u64 = if flen >= 3 {
        proof {
            assert(b@.subrange(dot as int + 1, dot as int + 4) =~= fp.take(3));
            lemma_digits_small(fp.take(3));
        }
        match parse_digits(b, dot + 1, dot + 4) {
            Some(v) => v,
            None => {
                proof {
                    assert(false);
                }
                0u64
            },
        }
    } else if flen > 0 {
        proof {
            assert(b@.subrange(dot as int + 1, n as int) =~= fp);
            lemma_digits_small(fp);
        }
        let raw = match parse_digits(b, dot + 1, n) {
            Some(v) => v,
            None => {
                proof {
                    assert(false);
                }
                0u64
            },
        };
        if flen == 2 {
            raw * 10
        } else {
            raw * 100
        }
    } else {
        0u64
    };
    proof {
        assert(frac == frac_millis(fp));
        lemma_sat_scale(dec_val(ip), frac_millis(fp));
    }
    Some(sat_mul_add(secs, frac))
}

/// A digit string of at most three digits has a value under a thousand.
proof fn lemma_digits_small(s: Seq<u8>)
    requires
        all_digits(s),
    ensures
        0 <= dec_val(s),
        s.len() <= 1 ==> dec_val(s) < 10,
        s.len() <= 2 ==> dec_val(s) < 100,
        s.len() <= 3 ==> dec_val(s) < 1000,
    decreases s.len(),
{
    if s.len() > 0 {
        assert(all_digits(s.drop_last()));
        lemma_digits_small(s.drop_last());
    }
}

/// Check that a byte range consists of decimal digits only.
fn check_digits(b: &[u8], start: usize, end: usize) -> (r: bool)
    requires
        start <= end <= b@.len(),
    ensures
        r == all_digits(b@.subrange(start as int, end as int)),
{
    let ghost t = b@.subrange(start as int, end as int);
    let mut i = start;
    while i < end
        invariant
            start <= i <= end <= b@.len(),
            t == b@.subrange(start as int, end as int),
            forall|j: int| 0 <= j < i - start ==> is_digit(t[j]),
        decreases end - i,
    {
        let c = *vstd::slice::slice_index_get(b, i);
        proof {
            assert(t[i - start] == b@[i as int]);
        }
        if c < 48 || c > 57 {
            return false;
        }
        i = i + 1;
    }
    true
}

/// The decimal value of a digit range, saturating at `u64::MAX`.
fn dec_sat(b: &[u8], start: usize, end: usize) -> (r: u64)
    requires
        start < end <= b@.len(),
        all_digits(b@.subrange(start as int, end as int)),
    ensures
        ({
            let v = dec_val(b@.subrange(start as int, end as int));
            if v <= u64::MAX {
                r == v
            } else {
                r == u64::MAX
            }
        }),
{
    let ghost t = b@.subrange(start as int, end as int);
    match parse_digits(b, start, end) {
        Some(v) => v,
        None => u64::MAX,
    }
}

/// Saturated seconds-to-milliseconds: `secs * 1000 + frac`, clamped.
fn sat_mul_add(secs: u64, frac: u64) -> (r: u64)
    requires
        frac < 1000,
    ensures
        r == sat64(secs * 1000 + frac),
{
    match secs.checked_mul(1000) {
        Some(x) => match x.checked_add(frac) {
            Some(y) => y,
            None => u64::MAX,
        },
        None => {
            proof {
                assert(secs * 1000 + frac > u64::MAX);
            }
            u64::MAX
        },
    }
}

/// If the seconds part alone exceeds the clamp, so does the total.
proof fn lemma_sat_scale(secs: int, frac: int)
    requires
        secs >= 0,
        frac >= 0,
    ensures
        secs * 1000 + frac >= secs,
        secs > u64::MAX ==> secs * 1000 + frac > u64::MAX,
{
    assert(secs * 1000 >= secs) by (nonlinear_arith)
        requires
            secs >= 0,
    ;
}

// ---------------------------------------------------------------------------
// Parsing a request into a command
// ---------------------------------------------------------------------------

/// Turn a request frame into a command. The frame must be an array whose
/// first element is the verb; the verb decides how the remaining elements
/// are read. The error message of a refused request is short ASCII, fit for
/// an error reply line.
#[verifier::loop_isolation(false)]
#[verifier::rlimit(60)]
pub fn parse_command(frame: Frame) -> (r: Result<Command, &'static str>)
    ensures
        ({
            match frame.model() {
                FrameModel::Array(ms) => match parse_cmd(ms) {
                    Option::Some(c) => r matches Ok(cmd) && cmd.model() == c,
                    Option::None => r is Err,
                },
                _ => r is Err,
            }
        }),
        r matches Err(m) ==> crate::frame::text_ok(m@),
{
    let ghost fm = frame.model();
    let mut p = match Parse::new(frame) {
        Ok(p) => p,
        Err(_) => {
            proof {
                reveal_strlit("expected an array of arguments");
            }
            return Err("expected an array of arguments");
        },
    };
    let ghost ms = p.remaining();
    let verb = match p.next_string() {
        Ok(s) => s,
        Err(_) => {
            proof {
                reveal_strlit("missing or malformed command verb");
            }
            return Err("missing or malformed command verb");
        },
    };
    let ghost args = p.remaining();
    let vb = upper_vec(&verb);
    proof {
        assert(verb_bytes(ms[0]) == Option::Some(vb@));
        assert(args == ms.drop_first());
        reveal_strlit("SELECT");
        lemma_ascii_literal("SELECT"@);
        reveal_strlit("GET");
        lemma_ascii_literal("GET"@);
        reveal_strlit("SET");
        lemma_ascii_literal("SET"@);
        reveal_strlit("PING");
        lemma_ascii_literal("PING"@);
        reveal_strlit("EXISTS");
        lemma_ascii_literal("EXISTS"@);
        reveal_strlit("RPUSH");
        lemma_ascii_literal("RPUSH"@);
        reveal_strlit("LPUSH");
        lemma_ascii_literal("LPUSH"@);
        reveal_strlit("BLPOP");
        lemma_ascii_literal("BLPOP"@);
        reveal_strlit("BRPOP");
        lemma_ascii_literal("BRPOP"@);
    }
    if bytes_eq(vb.as_slice(), "SELECT".as_bytes()) {
        let n = match p.next_int() {
            Ok(n) => n,
            Err(_) => {
                proof {
                    reveal_strlit("index is not an integer");
                }
                return Err("index is not an integer");
            },
        };
        match p.finish() {
            Ok(_) => Ok(Command::Select(n)),
            Err(_) => {
                proof {
                    reveal_strlit("wrong arguments for SELECT");
                }
                Err("wrong arguments for SELECT")
            },
        }
    } else if bytes_eq(vb.as_slice(), "GET".as_bytes()) {
        let key = match p.next_string() {
            Ok(k) => k,
            Err(_) => {
                proof {
                    reveal_strlit("wrong arguments for GET");
                }
                return Err("wrong arguments for GET");
            },
        };
        match p.finish() {
            Ok(_) => Ok(Command::Get(key)),
            Err(_) => {
                proof {
                    reveal_strlit("wrong arguments for GET");
                }
                Err("wrong arguments for GET")
            },
        }
    } else if bytes_eq(vb.as_slice(), "SET".as_bytes()) {
        let key = match p.next_string() {
            Ok(k) => k,
            Err(_) => {
                proof {
                    reveal_strlit("wrong arguments for SET");
                }
                return Err("wrong arguments for SET");
            },
        };
        let value = match p.next_bytes() {
            Ok(v) => v,
            Err(_) => {
                proof {
                    reveal_strlit("wrong arguments for SET");
                }
                return Err("wrong arguments for SET");
            },
        };
        match p.finish() {
            Ok(_) => Ok(Command::SetVal(key, value)),
            Err(_) => {
                proof {
                    reveal_strlit("wrong arguments for SET");
                }
                Err("wrong arguments for SET")
            },
        }
    } else if bytes_eq(vb.as_slice(), "PING".as_bytes()) {
        match p.finish() {
            Ok(_) => Ok(Command::Ping),
            Err(_) => {
                proof {
                    reveal_strlit("wrong arguments for PING");
                }
                Err("wrong arguments for PING")
            },
        }
    } else if bytes_eq(vb.as_slice(), "EXISTS".as_bytes()) {
        let key = match p.next_string() {
            Ok(k) => k,
            Err(_) => {
                proof {
                    reveal_strlit("wrong arguments for EXISTS");
                }
                return Err("wrong arguments for EXISTS");
            },
        };
        match p.finish() {
            Ok(_) => Ok(Command::Exists(key)),
            Err(_) => {
                proof {
                    reveal_strlit("wrong arguments for EXISTS");
                }
                Err("wrong arguments for EXISTS")
            },
        }
    } else if bytes_eq(vb.as_slice(), "RPUSH".as_bytes()) {
        let key = match p.next_string() {
            Ok(k) => k,
            Err(_) => {
                proof {
                    reveal_strlit("wrong arguments for RPUSH");
                }
                return Err("wrong arguments for RPUSH");
            },
        };
        let value = match p.next_bytes() {
            Ok(v) => v,
            Err(_) => {
                proof {
                    reveal_strlit("wrong arguments for RPUSH");
                }
                return Err("wrong arguments for RPUSH");
            },
        };
        match p.finish() {
            Ok(_) => Ok(Command::RPush(key, value)),
            Err(_) => {
                proof {
                    reveal_strlit("wrong arguments for RPUSH");
                }
                Err("wrong arguments for RPUSH")
            },
        }
    } else if bytes_eq(vb.as_slice(), "LPUSH".as_bytes()) {
        let key = match p.next_string() {
            Ok(k) => k,
            Err(_) => {
                proof {
                    reveal_strlit("wrong arguments for LPUSH");
                }
                return Err("wrong arguments for LPUSH");
            },
        };
        let value = match p.next_bytes() {
            Ok(v) => v,
            Err(_) => {
                proof {
                    reveal_strlit("wrong arguments for LPUSH");
                }
                return Err("wrong arguments for LPUSH");
            },
        };
        match p.finish() {
            Ok(_) => Ok(Command::LPush(key, value)),
            Err(_) => {
                proof {
                    reveal_strlit("wrong arguments for LPUSH");
                }
                Err("wrong arguments for LPUSH")
            },
        }
    } else if bytes_eq(vb.as_slice(), "BLPOP".as_bytes()) {
        match parse_pop_args(&mut p) {
            Ok((keys, timeout_ms)) => Ok(Command::BLPop(keys, timeout_ms)),
            Err(m) => Err(m),
        }
    } else if bytes_eq(vb.as_slice(), "BRPOP".as_bytes()) {
        match parse_pop_args(&mut p) {
            Ok((keys, timeout_ms)) => Ok(Command::BRPop(keys, timeout_ms)),
            Err(m) => Err(m),
        }
    } else {
        proof {
            reveal_strlit("unsupported command");
        }
        Err("unsupported command")
    }
}

/// Read a blocking pop's arguments: every element must be text, the scan
/// keys come first, and the final element is the timeout in seconds.
#[verifier::loop_isolation(false)]
fn parse_pop_args(p: &mut Parse) -> (r: Result<(Vec<String>, u64), &'static str>)
    ensures
        ({
            let args = old(p).remaining();
            match pop_args(args) {
                Option::Some((ks, t)) => r matches Ok((keys, tm)) && key_views(keys@) == ks && tm
                    == t,
                Option::None => r is Err,
            }
        }),
        r matches Err(m) ==> crate::frame::text_ok(m@),
{
    let ghost args = p.remaining();
    proof {
        lemma_texts_of(args);
        assert(p.remaining() =~= args.skip(0));
    }
    let total = p.remaining_len();
    let mut all: Vec<String> = Vec::new();
    let mut i: usize = 0;
    while i < total
        invariant
            0 <= i <= total,
            total == args.len(),
            p.remaining() == args.skip(i as int),
            all@.len() == i,
            forall|j: int| 0 <= j < i ==> as_text(args[j]) is Some,
            forall|j: int| 0 <= j < i ==> all@[j]@ == as_text(args[j])->0,
        decreases total - i,
    {
        let ghost rem0 = p.remaining();
        proof {
            assert(rem0[0] == args[i as int]);
        }
        match p.next_string() {
            Ok(k) => {
                all.push(k);
                proof {
                    assert(p.remaining() =~= args.skip(i + 1));
                }
            },
            Err(_) => {
                proof {
                    assert(as_text(args[i as int]) is None);
                    reveal_strlit("pop arguments must be text");
                }
                return Err("pop arguments must be text");
            },
        }
        i = i + 1;
    }
    if total == 0 {
        proof {
            reveal_strlit("missing timeout");
        }
        return Err("missing timeout");
    }
    let t = match all.pop() {
        Some(t) => t,
        None => {
            proof {
                assert(false);
            }
            return Err("missing timeout");
        },
    };
    proof {
        assert(t@ == as_text(args.last())->0);
    }
    let tm = match parse_millis(t.as_str().as_bytes()) {
        Some(m) => m,
        None => {
            proof {
                reveal_strlit("timeout is not a number");
            }
            return Err("timeout is not a number");
        },
    };
    proof {
        lemma_texts_of(args.drop_last());
        assert forall|j: int| 0 <= j < all@.len() implies key_views(all@)[j] == texts_of(
            args.drop_last(),
        )[j] by {
            assert(args.drop_last()[j] == args[j]);
        }
        assert(key_views(all@) =~= texts_of(args.drop_last()));
    }
    Ok((all, tm))
}

// ---------------------------------------------------------------------------
// Dispatch: running a command against the store
// ---------------------------------------------------------------------------

/// A bulk reply for a present value, a null reply for an absent one.
pub open spec fn bulk_or_null(v: Option<Seq<u8>>) -> FrameModel {
    match v {
        Option::Some(b) => FrameModel::Bulk(b),
        Option::None => FrameModel::Null,
    }
}

/// The two stores describe the same state: same selected index, same
/// namespaces.
pub open spec fn same_state(db0: Db, db1: Db) -> bool {
    &&& db1.cur() == db0.cur()
    &&& forall|i: int| 0 <= i < 16 ==> db1.ns(i) == db0.ns(i)
}

/// The selected index is unchanged and so is every namespace but the
/// selected one: the frame every single-namespace command obeys.
pub open spec fn db_frame(db0: Db, db1: Db) -> bool {
    &&& db1.cur() == db0.cur()
    &&& forall|i: int| 0 <= i < 16 && i != db0.cur() ==> db1.ns(i) == db0.ns(i)
}

/// `ns1` is `ns0` with `v` stored under `k`.
pub open spec fn ns_set_rel(ns0: Namespace, ns1: Namespace, k: Seq<char>, v: Seq<u8>) -> bool {
    &&& ns1.entry_at(k) == Option::Some(v)
    &&& forall|k2: Seq<char>| k2 != k ==> ns1.entry_at(k2) == ns0.entry_at(k2)
    &&& ns1.lists == ns0.lists
}

/// `ns1` is `ns0` with `v` appended (`back`) or prepended to `k`'s list, and
/// `fm` is the push's reply: the new length, or the wrong-type error.
pub open spec fn ns_push_case(
    ns0: Namespace,
    ns1: Namespace,
    k: Seq<char>,
    v: Seq<u8>,
    back: bool,
    fm: FrameModel,
) -> bool {
    if ns0.entry_at(k) is Some {
        fm is Error && ns1 == ns0
    } else {
        let oldl = match ns0.list_at(k) {
            Option::Some(l) => l,
            Option::None => Seq::empty(),
        };
        let newl = if back {
            oldl.push(v)
        } else {
            seq![v] + oldl
        };
        &&& fm == FrameModel::Integer(newl.len() as u64)
        &&& ns1.entries == ns0.entries
        &&& ns1.list_at(k) == Option::Some(newl)
        &&& forall|k2: Seq<char>| k2 != k ==> ns1.list_at(k2) == ns0.list_at(k2)
    }
}

/// `ns1` is `ns0` with one element popped from `k`'s list, and `fm` is the
/// reply: a two-element array of the key and the popped value.
pub open spec fn ns_pop_hit(
    ns0: Namespace,
    ns1: Namespace,
    k: Seq<char>,
    back: bool,
    fm: FrameModel,
) -> bool {
    &&& ns0.list_at(k) matches Option::Some(l) && l.len() > 0 && fm == FrameModel::Array(
        seq![
            FrameModel::Bulk(encode_utf8(k)),
            FrameModel::Bulk(
                if back {
                    l.last()
                } else {
                    l[0]
                },
            ),
        ],
    ) && ns1.list_at(k) == Option::Some(
        if back {
            l.drop_last()
        } else {
            l.drop_first()
        },
    )
    &&& ns1.entries == ns0.entries
    &&& forall|k2: Seq<char>| k2 != k ==> ns1.list_at(k2) == ns0.list_at(k2)
}

/// What a blocking pop does in one step against a namespace: an error
/// without keys, an immediate null at timeout zero, a pop from the first key
/// with data, or a wait.
pub open spec fn ns_pop_case(
    ns0: Namespace,
    ns1: Namespace,
    ks: Seq<Seq<char>>,
    t: u64,
    back: bool,
    r: Outcome,
) -> bool {
    if ks.len() == 0 {
        r matches Outcome::Reply(f) && f.model() is Error && ns1 == ns0
    } else if t == 0 {
        r matches Outcome::Reply(f) && f.model() is Null && ns1 == ns0
    } else {
        match first_with_data(ns0, ks) {
            Option::Some(i) => r matches Outcome::Reply(f) && ns_pop_hit(
                ns0,
                ns1,
                ks[i],
                back,
                f.model(),
            ),
            Option::None => r matches Outcome::WaitPop(p) && ns1 == ns0 && key_views(p.keys@)
                == ks && p.from_back == back && p.timeout_ms == t,
        }
    }
}

/// `db1` is `db0` with `v` stored under `k` in the selected namespace.
pub open spec fn set_rel(db0: Db, db1: Db, k: Seq<char>, v: Seq<u8>) -> bool {
    &&& db_frame(db0, db1)
    &&& ns_set_rel(db0.ns(db0.cur()), db1.ns(db0.cur()), k, v)
}

/// `db1` is `db0` with `v` pushed onto `k`'s list in the selected namespace,
/// and `fm` is the push's reply.
pub open spec fn push_case(db0: Db, db1: Db, k: Seq<char>, v: Seq<u8>, back: bool, fm: FrameModel) -> bool {
    &&& db_frame(db0, db1)
    &&& ns_push_case(db0.ns(db0.cur()), db1.ns(db0.cur()), k, v, back, fm)
}

/// `db1` is `db0` with one element popped from `k`'s list in the selected
/// namespace, and `fm` is the reply.
pub open spec fn pop_hit(db0: Db, db1: Db, k: Seq<char>, back: bool, fm: FrameModel) -> bool {
    &&& db_frame(db0, db1)
    &&& ns_pop_hit(db0.ns(db0.cur()), db1.ns(db0.cur()), k, back, fm)
}

/// What a blocking pop does in one step against the store.
pub open spec fn pop_case(db0: Db, db1: Db, ks: Seq<Seq<char>>, t: u64, back: bool, r: Outcome) -> bool {
    &&& db_frame(db0, db1)
    &&& ns_pop_case(db0.ns(db0.cur()), db1.ns(db0.cur()), ks, t, back, r)
}

/// A blocking pop that found no data at first look: what to keep polling
/// with, and for how long.
pub struct PendingPop {
    pub keys: Vec<String>,
    pub from_back: bool,
    pub timeout_ms: u64,
}

/// What the connection does with a request: send a reply now, or poll a
/// pending pop until data appears or its deadline passes.
pub enum Outcome {
    Reply(Frame),
    WaitPop(PendingPop),
}

/// An error reply carrying the given message.
fn error_frame(m: &'static str) -> (r: Frame)
    requires
        crate::frame::text_ok(m@),
    ensures
        r.model() == FrameModel::Error(m@),
        r.model().wf(),
{
    Frame::Error(String::from_str(m))
}

/// The `OK` status reply.
fn ok_frame() -> (r: Frame)
    ensures
        r.model() == FrameModel::Simple("OK"@),
        r.model().wf(),
{
    proof {
        reveal_strlit("OK");
    }
    Frame::Simple(String::from_str("OK"))
}

/// The `PONG` status reply.
fn pong_frame() -> (r: Frame)
    ensures
        r.model() == FrameModel::Simple("PONG"@),
        r.model().wf(),
{
    proof {
        reveal_strlit("PONG");
    }
    Frame::Simple(String::from_str("PONG"))
}

/// The reply of a successful blocking pop: the key that had data, then the
/// popped value.
fn pop_reply(k: String, v: Vec<u8>) -> (r: Frame)
    ensures
        r.model() == FrameModel::Array(
            seq![FrameModel::Bulk(encode_utf8(k@)), FrameModel::Bulk(v@)],
        ),
        r.model().wf(),
{
    let kb = k.as_str().as_bytes_vec();
    proof {
        vstd::std_specs::vec::axiom_spec_len(&kb);
        vstd::std_specs::vec::axiom_spec_len(&v);
    }
    let mut elems: Vec<Frame> = Vec::new();
    elems.push(Frame::Bulk(kb));
    elems.push(Frame::Bulk(v));
    let r = Frame::Array(elems);
    proof {
        crate::frame::lemma_models_of(elems@);
        assert(models_of(elems@) =~= seq![
            FrameModel::Bulk(encode_utf8(k@)),
            FrameModel::Bulk(v@),
        ]);
        vstd::std_specs::vec::axiom_spec_len(&elems);
        crate::frame::lemma_wf_all(models_of(elems@));
    }
    r
}

/// Run one already-parsed command against a single namespace and build the
/// reply. SELECT is not a namespace operation and is refused by the
/// precondition; everything else reads or writes exactly this namespace.
/// This is the entry point for a store whose sixteen namespaces are guarded
/// by independent locks: the caller locks one shard and hands it in.
#[verifier::rlimit(60)]
pub fn apply_to_namespace(ns: &mut Namespace, cmd: Command) -> (r: Outcome)
    requires
        old(ns).wf(),
        !(cmd is Select),
    ensures
        final(ns).wf(),
        r matches Outcome::Reply(f) ==> f.model().wf(),
        ({
            let ns0 = *old(ns);
            let ns1 = *final(ns);
            &&& cmd matches Command::Get(k) ==> ns1 == ns0 && (r matches Outcome::Reply(f)
                && f.model() == bulk_or_null(ns0.entry_at(k@)))
            &&& cmd matches Command::SetVal(k, v) ==> (r matches Outcome::Reply(f) && f.model()
                == FrameModel::Simple("OK"@) && ns_set_rel(ns0, ns1, k@, v@))
            &&& cmd is Ping ==> ns1 == ns0 && (r matches Outcome::Reply(f) && f.model()
                == FrameModel::Simple("PONG"@))
            &&& cmd matches Command::Exists(k) ==> ns1 == ns0 && (r matches Outcome::Reply(f)
                && f.model() == FrameModel::Integer(
                if ns0.entry_at(k@) is Some {
                    1u64
                } else {
                    0u64
                },
            ))
            &&& cmd matches Command::RPush(k, v) ==> (r matches Outcome::Reply(f)
                && ns_push_case(ns0, ns1, k@, v@, true, f.model()))
            &&& cmd matches Command::LPush(k, v) ==> (r matches Outcome::Reply(f)
                && ns_push_case(ns0, ns1, k@, v@, false, f.model()))
            &&& cmd matches Command::BLPop(ks, t) ==> ns_pop_case(
                ns0,
                ns1,
                key_views(ks@),
                t,
                false,
                r,
            )
            &&& cmd matches Command::BRPop(ks, t) ==> ns_pop_case(
                ns0,
                ns1,
                key_views(ks@),
                t,
                true,
                r,
            )
        }),
{
    match cmd {
        Command::Select(_) => {
            proof {
                assert(false);
            }
            Outcome::Reply(Frame::Null)
        },
        Command::Get(k) => {
            match ns.get(&k) {
                Some(v) => {
                    proof {
                        vstd::std_specs::vec::axiom_spec_len(&v);
                    }
                    Outcome::Reply(Frame::Bulk(v))
                },
                None => Outcome::Reply(Frame::Null),
            }
        },
        Command::SetVal(k, v) => {
            ns.set(k, v);
            Outcome::Reply(ok_frame())
        },
        Command::Ping => Outcome::Reply(pong_frame()),
        Command::Exists(k) => {
            if ns.has_entry(&k) {
                Outcome::Reply(Frame::Integer(1))
            } else {
                Outcome::Reply(Frame::Integer(0))
            }
        },
        Command::RPush(k, v) => {
            match ns.push_list(k, v, true) {
                Ok(n) => Outcome::Reply(Frame::Integer(n as u64)),
                Err(_) => {
                    proof {
                        reveal_strlit("key holds a different type");
                    }
                    Outcome::Reply(error_frame("key holds a different type"))
                },
            }
        },
        Command::LPush(k, v) => {
            match ns.push_list(k, v, false) {
                Ok(n) => Outcome::Reply(Frame::Integer(n as u64)),
                Err(_) => {
                    proof {
                        reveal_strlit("key holds a different type");
                    }
                    Outcome::Reply(error_frame("key holds a different type"))
                },
            }
        },
        Command::BLPop(keys, t) => {
            if keys.is_empty() {
                proof {
                    reveal_strlit("no keys given");
                }
                Outcome::Reply(error_frame("no keys given"))
            } else if t == 0 {
                Outcome::Reply(Frame::Null)
            } else {
                match ns.pop_scan(&keys, false) {
                    Some((k, v)) => Outcome::Reply(pop_reply(k, v)),
                    None => Outcome::WaitPop(
                        PendingPop { keys, from_back: false, timeout_ms: t },
                    ),
                }
            }
        },
        Command::BRPop(keys, t) => {
            if keys.is_empty() {
                proof {
                    reveal_strlit("no keys given");
                }
                Outcome::Reply(error_frame("no keys given"))
            } else if t == 0 {
                Outcome::Reply(Frame::Null)
            } else {
                match ns.pop_scan(&keys, true) {
                    Some((k, v)) => Outcome::Reply(pop_reply(k, v)),
                    None => Outcome::WaitPop(PendingPop { keys, from_back: true, timeout_ms: t }),
                }
            }
        },
    }
}

/// One poll of a pending pop against a single namespace: scan its keys once.
/// The per-shard counterpart of [`poll_pop`].
pub fn poll_pop_ns(ns: &mut Namespace, p: &PendingPop) -> (r: Option<Frame>)
    requires
        old(ns).wf(),
    ensures
        final(ns).wf(),
        ({
            let ks = key_views(p.keys@);
            match r {
                Option::None => first_with_data(*old(ns), ks) is None && *final(ns) == *old(ns),
                Option::Some(f) => f.model().wf() && (first_with_data(*old(ns), ks)
                    matches Option::Some(i) && ns_pop_hit(
                    *old(ns),
                    *final(ns),
                    ks[i],
                    p.from_back,
                    f.model(),
                )),
            }
        }),
{
    match ns.pop_scan(&p.keys, p.from_back) {
        Some((k, v)) => Some(pop_reply(k, v)),
        None => None,
    }
}

/// Run a SELECT against the shared current-namespace cell: move it if the
/// index names one of the sixteen namespaces, refuse it otherwise.
pub fn select_update(current: &mut usize, n: u64) -> (r: Frame)
    requires
        *old(current) < 16,
    ensures
        *final(current) < 16,
        r.model().wf(),
        n < 16 ==> *final(current) == n && r.model() == FrameModel::Simple("OK"@),
        n >= 16 ==> *final(current) == *old(current) && r.model() is Error,
{
    if n < 16 {
        *current = n as usize;
        ok_frame()
    } else {
        proof {
            reveal_strlit("namespace index out of range");
        }
        error_frame("namespace index out of range")
    }
}

/// Turn a request frame into a command, or into the error reply a refused
/// request is answered with.
pub fn parse_request(frame: Frame) -> (r: Result<Command, Frame>)
    ensures
        ({
            match frame.model() {
                FrameModel::Array(ms) => match parse_cmd(ms) {
                    Option::Some(c) => r matches Ok(cmd) && cmd.model() == c,
                    Option::None => r matches Err(f) && f.model() is Error && f.model().wf(),
                },
                _ => r matches Err(f) && f.model() is Error && f.model().wf(),
            }
        }),
{
    match parse_command(frame) {
        Ok(c) => Ok(c),
        Err(m) => Err(error_frame(m)),
    }
}

/// Run one request against the store and decide what the connection does
/// next. Every command error becomes an error reply; the connection stays
/// open. A blocking pop that finds no data becomes a pending wait.
#[verifier::rlimit(100)]
pub fn handle_command(db: &mut Db, frame: Frame) -> (r: Outcome)
    requires
        old(db).wf(),
    ensures
        final(db).wf(),
        r matches Outcome::Reply(f) ==> f.model().wf(),
        ({
            let db0 = *old(db);
            let db1 = *final(db);
            match frame.model() {
                FrameModel::Array(ms) => match parse_cmd(ms) {
                    Option::None => r matches Outcome::Reply(f) && f.model() is Error && db1
                        == db0,
                    Option::Some(c) => match c {
                        CmdModel::Select(n) => r matches Outcome::Reply(f) && (if n < 16 {
                            f.model() == FrameModel::Simple("OK"@) && db1.cur() == n
                                && db1.namespaces == db0.namespaces
                        } else {
                            f.model() is Error && db1 == db0
                        }),
                        CmdModel::Get(k) => r matches Outcome::Reply(f) && same_state(db0, db1)
                            && f.model() == bulk_or_null(db0.ns(db0.cur()).entry_at(k)),
                        CmdModel::SetVal(k, v) => r matches Outcome::Reply(f) && f.model()
                            == FrameModel::Simple("OK"@) && set_rel(db0, db1, k, v),
                        CmdModel::Ping => r matches Outcome::Reply(f) && f.model()
                            == FrameModel::Simple("PONG"@) && same_state(db0, db1),
                        CmdModel::Exists(k) => r matches Outcome::Reply(f) && same_state(
                            db0,
                            db1,
                        ) && f.model() == FrameModel::Integer(
                            if db0.ns(db0.cur()).entry_at(k) is Some {
                                1u64
                            } else {
                                0u64
                            },
                        ),
                        CmdModel::RPush(k, v) => r matches Outcome::Reply(f) && push_case(
                            db0,
                            db1,
                            k,
                            v,
                            true,
                            f.model(),
                        ),
                        CmdModel::LPush(k, v) => r matches Outcome::Reply(f) && push_case(
                            db0,
                            db1,
                            k,
                            v,
                            false,
                            f.model(),
                        ),
                        CmdModel::BLPop(ks, t) => pop_case(db0, db1, ks, t, false, r),
                        CmdModel::BRPop(ks, t) => pop_case(db0, db1, ks, t, true, r),
                    },
                },
                _ => r matches Outcome::Reply(f) && f.model() is Error && db1 == db0,
            }
        }),
{
    let cmd = match parse_command(frame) {
        Ok(c) => c,
        Err(m) => {
            return Outcome::Reply(error_frame(m));
        },
    };
    match cmd {
        Command::Select(n) => {
            if n < 16 {
                let res = db.select_namespace(n as usize);
                proof {
                    assert(res is Ok);
                }
                Outcome::Reply(ok_frame())
            } else {
                proof {
                    reveal_strlit("namespace index out of range");
                }
                Outcome::Reply(error_frame("namespace index out of range"))
            }
        },
        c => {
            let cur = db.current;
            let mut ns = db.namespaces.remove(cur);
            let r = apply_to_namespace(&mut ns, c);
            db.namespaces.insert(cur, ns);
            proof {
                assert(db.namespaces@ =~= old(db).namespaces@.update(
                    cur as int,
                    db.namespaces@[cur as int],
                ));
            }
            r
        },
    }
}

/// One poll of a pending pop: scan its keys once against the store as it now
/// stands. The caller sleeps between polls and stops at its deadline.
pub fn poll_pop(db: &mut Db, p: &PendingPop) -> (r: Option<Frame>)
    requires
        old(db).wf(),
    ensures
        final(db).wf(),
        ({
            let db0 = *old(db);
            let db1 = *final(db);
            let ks = key_views(p.keys@);
            match r {
                Option::None => first_with_data(db0.ns(db0.cur()), ks) is None && same_state(
                    db0,
                    db1,
                ),
                Option::Some(f) => f.model().wf() && (
                first_with_data(db0.ns(db0.cur()), ks) matches Option::Some(i) && pop_hit(
                    db0,
                    db1,
                    ks[i],
                    p.from_back,
                    f.model(),
                )),
            }
        }),
{
    let popped = if p.from_back {
        db.brpop(&p.keys)
    } else {
        db.blpop(&p.keys)
    };
    match popped {
        Some((k, v)) => Some(pop_reply(k, v)),
        None => None,
    }
}

/// The reply of a blocking pop whose deadline passed without data.
pub fn timeout_reply() -> (r: Frame)
    ensures
        r.model() == FrameModel::Null,
        r.model().wf(),
{
    Frame::Null
}

/// Answer one request completely, with no waiting: a blocking pop either
/// finds data on its first scan or is answered as a timeout would answer it.
/// Against a store with no concurrent writers the two are the same, since no
/// data can appear while the command waits.
pub fn respond(db: &mut Db, frame: Frame) -> (r: Frame)
    requires
        old(db).wf(),
    ensures
        final(db).wf(),
        r.model().wf(),
        ({
            let db0 = *old(db);
            let db1 = *final(db);
            match frame.model() {
                FrameModel::Array(ms) => match parse_cmd(ms) {
                    Option::None => r.model() is Error && db1 == db0,
                    Option::Some(c) => match c {
                        CmdModel::Select(n) => if n < 16 {
                            r.model() == FrameModel::Simple("OK"@) && db1.cur() == n
                                && db1.namespaces == db0.namespaces
                        } else {
                            r.model() is Error && db1 == db0
                        },
                        CmdModel::Get(k) => same_state(db0, db1) && r.model() == bulk_or_null(
                            db0.ns(db0.cur()).entry_at(k),
                        ),
                        CmdModel::SetVal(k, v) => r.model() == FrameModel::Simple("OK"@)
                            && set_rel(db0, db1, k, v),
                        CmdModel::Ping => r.model() == FrameModel::Simple("PONG"@)
                            && same_state(db0, db1),
                        CmdModel::Exists(k) => same_state(db0, db1) && r.model()
                            == FrameModel::Integer(
                            if db0.ns(db0.cur()).entry_at(k) is Some {
                                1u64
                            } else {
                                0u64
                            },
                        ),
                        CmdModel::RPush(k, v) => push_case(db0, db1, k, v, true, r.model()),
                        CmdModel::LPush(k, v) => push_case(db0, db1, k, v, false, r.model()),
                        CmdModel::BLPop(ks, t) => if ks.len() == 0 {
                            r.model() is Error && same_state(db0, db1)
                        } else if t == 0 {
                            r.model() is Null && same_state(db0, db1)
                        } else {
                            match first_with_data(db0.ns(db0.cur()), ks) {
                                Option::Some(i) => pop_hit(db0, db1, ks[i], false, r.model()),
                                Option::None => r.model() is Null && same_state(db0, db1),
                            }
                        },
                        CmdModel::BRPop(ks, t) => if ks.len() == 0 {
                            r.model() is Error && same_state(db0, db1)
                        } else if t == 0 {
                            r.model() is Null && same_state(db0, db1)
                        } else {
                            match first_with_data(db0.ns(db0.cur()), ks) {
                                Option::Some(i) => pop_hit(db0, db1, ks[i], true, r.model()),
                                Option::None => r.model() is Null && same_state(db0, db1),
                            }
                        },
                    },
                },
                _ => r.model() is Error && db1 == db0,
            }
        }),
{
    match handle_command(db, frame) {
        Outcome::Reply(f) => f,
        Outcome::WaitPop(_) => Frame::Null,
    }
}

// ---------------------------------------------------------------------------
// Laws of the request pipeline
// ---------------------------------------------------------------------------

/// After a SET of `v` under `k`, a GET of `k` replies with exactly that
/// value, and an EXISTS of `k` replies one; before any SET of `k` on a
/// namespace that does not hold it, GET replies null and EXISTS replies
/// zero.
pub proof fn lemma_set_then_get(db0: Db, db1: Db, k: Seq<char>, v: Seq<u8>)
    requires
        set_rel(db0, db1, k, v),
    ensures
        bulk_or_null(db1.ns(db1.cur()).entry_at(k)) == FrameModel::Bulk(v),
        db1.ns(db1.cur()).entry_at(k) is Some,
{
}

/// A key that holds no entry answers GET with null and EXISTS with zero;
/// after a SET it answers EXISTS with one. The replies here are the ones
/// `respond` promises for these commands.
pub proof fn lemma_exists_flip(db0: Db, db1: Db, k: Seq<char>, v: Seq<u8>)
    requires
        db0.ns(db0.cur()).entry_at(k) is None,
        set_rel(db0, db1, k, v),
    ensures
        bulk_or_null(db0.ns(db0.cur()).entry_at(k)) == FrameModel::Null,
        !(db0.ns(db0.cur()).entry_at(k) is Some),
        db1.ns(db1.cur()).entry_at(k) is Some,
{
}

/// Two tail-appends to a fresh list leave the two values in arrival order,
/// and a head-pop then takes the older one first: the lists are queues under
/// RPUSH and BLPOP.
pub proof fn lemma_fifo_order(
    db0: Db,
    db1: Db,
    db2: Db,
    k: Seq<char>,
    a: Seq<u8>,
    b: Seq<u8>,
    f1: FrameModel,
    f2: FrameModel,
)
    requires
        db0.ns(db0.cur()).entry_at(k) is None,
        db0.ns(db0.cur()).list_at(k) is None,
        push_case(db0, db1, k, a, true, f1),
        push_case(db1, db2, k, b, true, f2),
    ensures
        f1 == FrameModel::Integer(1),
        f2 == FrameModel::Integer(2),
        db2.ns(db2.cur()).list_at(k) == Option::Some(seq![a, b]),
        first_with_data(db2.ns(db2.cur()), seq![k]) == Option::Some(0int),
        forall|db3: Db, fm: FrameModel|
            pop_hit(db2, db3, k, false, fm) ==> fm == FrameModel::Array(
                seq![FrameModel::Bulk(encode_utf8(k)), FrameModel::Bulk(a)],
            ),
{
    assert(db1.ns(db1.cur()).entry_at(k) is None);
    assert(db1.ns(db1.cur()).list_at(k) == Option::Some(Seq::<Seq<u8>>::empty().push(a)));
    assert(Seq::<Seq<u8>>::empty().push(a) =~= seq![a]);
    assert(db2.ns(db2.cur()).list_at(k) == Option::Some(seq![a].push(b)));
    assert(seq![a].push(b) =~= seq![a, b]);
    assert(has_data(db2.ns(db2.cur()), k));
    assert forall|db3: Db, fm: FrameModel| pop_hit(db2, db3, k, false, fm) implies fm
        == FrameModel::Array(seq![FrameModel::Bulk(encode_utf8(k)), FrameModel::Bulk(a)]) by {
        assert(seq![a, b][0] == a);
    }
}

/// Two head-prepends to a fresh list leave the newer value first, and a
/// tail-pop then takes the older one first: LPUSH with BRPOP mirrors RPUSH
/// with BLPOP.
pub proof fn lemma_mirrored_order(
    db0: Db,
    db1: Db,
    db2: Db,
    k: Seq<char>,
    a: Seq<u8>,
    b: Seq<u8>,
    f1: FrameModel,
    f2: FrameModel,
)
    requires
        db0.ns(db0.cur()).entry_at(k) is None,
        db0.ns(db0.cur()).list_at(k) is None,
        push_case(db0, db1, k, a, false, f1),
        push_case(db1, db2, k, b, false, f2),
    ensures
        f1 == FrameModel::Integer(1),
        f2 == FrameModel::Integer(2),
        db2.ns(db2.cur()).list_at(k) == Option::Some(seq![b, a]),
        forall|db3: Db, fm: FrameModel|
            pop_hit(db2, db3, k, true, fm) ==> fm == FrameModel::Array(
                seq![FrameModel::Bulk(encode_utf8(k)), FrameModel::Bulk(a)],
            ),
{
    assert(db1.ns(db1.cur()).entry_at(k) is None);
    assert(db1.ns(db1.cur()).list_at(k) == Option::Some(seq![a] + Seq::<Seq<u8>>::empty()));
    assert(seq![a] + Seq::<Seq<u8>>::empty() =~= seq![a]);
    assert(db2.ns(db2.cur()).list_at(k) == Option::Some(seq![b] + seq![a]));
    assert(seq![b] + seq![a] =~= seq![b, a]);
    assert forall|db3: Db, fm: FrameModel| pop_hit(db2, db3, k, true, fm) implies fm
        == FrameModel::Array(seq![FrameModel::Bulk(encode_utf8(k)), FrameModel::Bulk(a)]) by {
        assert(seq![b, a].last() == a);
    }
}

/// A push onto a key that holds a string entry is refused and changes
/// nothing: in particular the string entry itself is left as it was.
pub proof fn lemma_wrong_type_push(db0: Db, db1: Db, k: Seq<char>, v: Seq<u8>, v0: Seq<u8>, back: bool, fm: FrameModel)
    requires
        db0.wf(),
        db0.ns(db0.cur()).entry_at(k) == Option::Some(v0),
        push_case(db0, db1, k, v, back, fm),
    ensures
        fm is Error,
        db1.ns(db1.cur()).entry_at(k) == Option::Some(v0),
        same_state(db0, db1),
{
}

/// Commands touch only the selected namespace: every other shard is exactly
/// what it was, whichever command ran.
pub proof fn lemma_namespace_isolation(db0: Db, db1: Db, k: Seq<char>, v: Seq<u8>, j: int)
    requires
        0 <= j < 16,
        j != db0.cur(),
        set_rel(db0, db1, k, v),
    ensures
        db1.ns(j) == db0.ns(j),
{
}

} // verus!
