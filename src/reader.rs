//! Turning wire bytes into protocol values.
use vstd::prelude::*;
use vstd::slice::{slice_subrange, slice_to_vec};
use vstd::utf8::*;

use crate::decimal::{
    int_text, lemma_nat_text_digits, lemma_signed_value_of_text, lemma_unsigned_value_of_text,
    nat_text, parse_i64_range, parse_usize, signed_value, unsigned_value,
};
use crate::resp::{crlf, encode, encode_all, views, RespType, Value};

verus! {

/// Why bytes could not be decoded. Each of these ends the connection.
#[derive(Debug, PartialEq, Eq, Structural)]
pub enum DecodeError {
    /// The first byte names no value kind.
    UnknownTag,
    /// A length or count is not a non-negative decimal that fits in a `usize`.
    BadLength,
    /// An integer is not a decimal that fits in an `i64`.
    BadInteger,
    /// A simple string or error is not valid UTF-8.
    BadText,
    /// A bulk string's bytes are not followed by a line end.
    MissingCrlf,
}

/// The result of decoding one value from the front of some bytes: the value and the
/// number of bytes it took, a request for more bytes, or a failure.
pub enum Parsed {
    Done(Value, nat),
    Incomplete,
    Failed(DecodeError),
}

/// The same, for a run of values one after the other.
pub enum ParsedSeq {
    Done(Seq<Value>, nat),
    Incomplete,
    Failed(DecodeError),
}

pub open spec fn crlf_at(s: Seq<u8>, j: int) -> bool {
    0 <= j && j + 1 < s.len() && s[j] == 13u8 && s[j + 1] == 10u8
}

/// Where the first line end at or after `from` starts.
pub open spec fn line_end(s: Seq<u8>, from: int) -> Option<int>
    decreases s.len() - from,
{
    if from < 0 || from + 1 >= s.len() {
        None
    } else if crlf_at(s, from) {
        Some(from)
    } else {
        line_end(s, from + 1)
    }
}

pub proof fn lemma_line_end_bounds(s: Seq<u8>, from: int)
    ensures
        line_end(s, from) matches Some(j) ==> from <= j && j + 1 < s.len() && crlf_at(s, j),
    decreases s.len() - from,
{
    if from >= 0 && from + 1 < s.len() && !crlf_at(s, from) {
        lemma_line_end_bounds(s, from + 1);
    }
}

pub open spec fn is_tag(b: u8) -> bool {
    b == 43u8 || b == 45u8 || b == 58u8 || b == 36u8 || b == 42u8
}

/// Decoding one value from the front of `s`.
pub open spec fn parse_value(s: Seq<u8>) -> Parsed
    decreases s.len(), 0nat, 0nat,
{
    if s.len() == 0 {
        Parsed::Incomplete
    } else if !is_tag(s[0]) {
        Parsed::Failed(DecodeError::UnknownTag)
    } else {
        match line_end(s, 1) {
            None => Parsed::Incomplete,
            Some(j) => {
                proof {
                    lemma_line_end_bounds(s, 1);
                }
                let line = s.subrange(1, j);
                let next = j + 2;
                if s[0] == 43u8 || s[0] == 45u8 {
                    if valid_utf8(line) {
                        let text = decode_utf8(line);
                        Parsed::Done(
                            if s[0] == 43u8 {
                                Value::Simple(text)
                            } else {
                                Value::Error(text)
                            },
                            next as nat,
                        )
                    } else {
                        Parsed::Failed(DecodeError::BadText)
                    }
                } else if s[0] == 58u8 {
                    match signed_value(line) {
                        Some(i) => if i64::MIN <= i <= i64::MAX {
                            Parsed::Done(Value::Int(i), next as nat)
                        } else {
                            Parsed::Failed(DecodeError::BadInteger)
                        },
                        None => Parsed::Failed(DecodeError::BadInteger),
                    }
                } else {
                    match unsigned_value(line) {
                        Some(n) => if n > usize::MAX {
                            Parsed::Failed(DecodeError::BadLength)
                        } else if s[0] == 36u8 {
                            if s.len() < next + n + 2 {
                                Parsed::Incomplete
                            } else if crlf_at(s, next + n) {
                                Parsed::Done(
                                    Value::Bulk(s.subrange(next, next + n)),
                                    (next + n + 2) as nat,
                                )
                            } else {
                                Parsed::Failed(DecodeError::MissingCrlf)
                            }
                        } else {
                            match parse_elems(s.subrange(next, s.len() as int), n) {
                                ParsedSeq::Done(items, k) => Parsed::Done(
                                    Value::Array(items),
                                    (next + k) as nat,
                                ),
                                ParsedSeq::Incomplete => Parsed::Incomplete,
                                ParsedSeq::Failed(e) => Parsed::Failed(e),
                            }
                        },
                        None => Parsed::Failed(DecodeError::BadLength),
                    }
                }
            },
        }
    }
}

/// Decoding `n` values one after the other from the front of `s`.
pub open spec fn parse_elems(s: Seq<u8>, n: nat) -> ParsedSeq
    decreases s.len(), 1nat, n,
{
    if n == 0 {
        ParsedSeq::Done(Seq::empty(), 0)
    } else {
        match parse_value(s) {
            Parsed::Done(v, k) => if 0 < k <= s.len() {
                match parse_elems(s.subrange(k as int, s.len() as int), (n - 1) as nat) {
                    ParsedSeq::Done(rest, k2) => ParsedSeq::Done(seq![v] + rest, k + k2),
                    ParsedSeq::Incomplete => ParsedSeq::Incomplete,
                    ParsedSeq::Failed(e) => ParsedSeq::Failed(e),
                }
            } else {
                ParsedSeq::Failed(DecodeError::BadLength)
            },
            Parsed::Incomplete => ParsedSeq::Incomplete,
            Parsed::Failed(e) => ParsedSeq::Failed(e),
        }
    }
}

/// Relies on `std::str::from_utf8`: it accepts exactly the valid UTF-8 byte
/// strings, and the text it gives has those bytes as its UTF-8 form.
#[verifier::external_body]
fn text_from_utf8(bytes: &[u8]) -> (r: Option<String>)
    ensures
        r is Some <==> valid_utf8(bytes@),
        r is Some ==> encode_utf8(r->0@) == bytes@,
{
    match std::str::from_utf8(bytes) {
        Ok(s) => Some(s.to_owned()),
        Err(_) => None,
    }
}

/// Where the first line end in `buf` at or after `from` starts.
pub fn find_line_end(buf: &[u8], from: usize) -> (r: Option<usize>)
    ensures
        r matches Some(j) ==> line_end(buf@, from as int) == Some(j as int) && from <= j && j + 1
            < buf@.len(),
        r is None ==> line_end(buf@, from as int) is None,
{
    proof {
        lemma_line_end_bounds(buf@, from as int);
    }
    let mut i = from;
    while buf.len() > 0 && i < buf.len() - 1
        invariant
            from <= i,
            line_end(buf@, from as int) == line_end(buf@, i as int),
        decreases buf.len() - i,
    {
        if buf[i] == 13 && buf[i + 1] == 10 {
            return Some(i);
        }
        i = i + 1;
    }
    None
}

pub open spec fn tail(s: Seq<u8>, start: int) -> Seq<u8> {
    s.subrange(start, s.len() as int)
}

/// The values decoded so far, `vs`, spanning `off` bytes, put before what decoding the
/// rest gives.
pub open spec fn prepend(vs: Seq<Value>, off: nat, r: ParsedSeq) -> ParsedSeq {
    match r {
        ParsedSeq::Done(rest, k) => ParsedSeq::Done(vs + rest, off + k),
        other => other,
    }
}

proof fn lemma_elems_step(s: Seq<u8>, pos: int, m: nat, vs: Seq<Value>, off: nat, v: Value, k: nat)
    requires
        0 <= pos <= s.len(),
        m > 0,
        parse_value(tail(s, pos)) == Parsed::Done(v, k),
        0 < k <= s.len() - pos,
    ensures
        prepend(vs, off, parse_elems(tail(s, pos), m)) == prepend(
            vs.push(v),
            off + k,
            parse_elems(tail(s, pos + k), (m - 1) as nat),
        ),
{
    assert(tail(s, pos).subrange(k as int, tail(s, pos).len() as int) =~= tail(s, pos + k));
    match parse_elems(tail(s, pos + k), (m - 1) as nat) {
        ParsedSeq::Done(rest, k2) => {
            assert(vs + (seq![v] + rest) =~= vs.push(v) + rest);
        },
        _ => {},
    }
}

proof fn lemma_line_end_shift(b: Seq<u8>, st: int, i: int)
    requires
        0 <= st <= b.len(),
        0 <= i,
    ensures
        match line_end(b, st + i) {
            Some(j) => line_end(tail(b, st), i) == Some(j - st),
            None => line_end(tail(b, st), i) is None,
        },
    decreases b.len() - st - i,
{
    if st + i + 1 < b.len() {
        if !crlf_at(b, st + i) {
            lemma_line_end_shift(b, st, i + 1);
        }
    }
}

/// `r` is what decoding from position `start` of a buffer of length `len` hands
/// back when the spec parser gives `p`.
pub open spec fn decoded(r: Result<Option<(RespType, usize)>, DecodeError>, p: Parsed, start: int, len: int) -> bool {
    match p {
        Parsed::Done(v, k) => r is Ok && r->Ok_0 is Some && (r->Ok_0->0).0@ == v && (r->Ok_0->0).1
            == start + k && start < start + k <= len,
        Parsed::Incomplete => r == Ok::<Option<(RespType, usize)>, DecodeError>(None),
        Parsed::Failed(e) => r == Err::<Option<(RespType, usize)>, DecodeError>(e),
    }
}

/// What decoding gives when the header line `s[1..j]` of a bulk string or array
/// declares the length `n`.
proof fn lemma_counted_value(s: Seq<u8>, j: int, n: nat)
    requires
        s.len() > 0,
        s[0] == 36u8 || s[0] == 42u8,
        line_end(s, 1) == Some(j),
        unsigned_value(s.subrange(1, j)) == Some(n),
        n <= usize::MAX,
    ensures
        s[0] == 36u8 ==> parse_value(s) == if s.len() < j + 2 + n + 2 {
            Parsed::Incomplete
        } else if crlf_at(s, j + 2 + n) {
            Parsed::Done(Value::Bulk(s.subrange(j + 2, j + 2 + n)), (j + 2 + n + 2) as nat)
        } else {
            Parsed::Failed(DecodeError::MissingCrlf)
        },
        s[0] == 42u8 ==> parse_value(s) == match parse_elems(s.subrange(j + 2, s.len() as int), n) {
            ParsedSeq::Done(items, k) => Parsed::Done(Value::Array(items), (j + 2 + k) as nat),
            ParsedSeq::Incomplete => Parsed::Incomplete,
            ParsedSeq::Failed(e) => Parsed::Failed(e),
        },
{
}

fn parse_bulk(buf: &[u8], start: usize, j: usize, n: usize) -> (r: Result<Option<(RespType, usize)>, DecodeError>)
    requires
        start < j,
        j + 1 < buf.len(),
        tail(buf@, start as int)[0] == 36u8,
        line_end(tail(buf@, start as int), 1) == Some(j - start),
        unsigned_value(tail(buf@, start as int).subrange(1, j - start)) == Some(n as nat),
    ensures
        decoded(r, parse_value(tail(buf@, start as int)), start as int, buf@.len() as int),
{
    let ghost s = tail(buf@, start as int);
    proof {
        lemma_counted_value(s, j - start, n as nat);
    }
    let next = j + 2;
    if buf.len() - next < n || buf.len() - next - n < 2 {
        return Ok(None);
    }
    let end = next + n;
    if buf[end] != 13 || buf[end + 1] != 10 {
        assert(!crlf_at(s, end - start));
        return Err(DecodeError::MissingCrlf);
    }
    let bytes = slice_to_vec(slice_subrange(buf, next, end));
    assert(bytes@ =~= s.subrange(next - start, next - start + n));
    assert(crlf_at(s, end - start));
    Ok(Some((RespType::BulkString(bytes), end + 2)))
}

/// Decodes one value from `buf[start..]`: the value and the position just after it,
/// `None` when the bytes end before the value does, or the reason it cannot be decoded.
pub fn parse_item(buf: &[u8], start: usize) -> (r: Result<Option<(RespType, usize)>, DecodeError>)
    requires
        start <= buf@.len(),
    ensures
        decoded(r, parse_value(tail(buf@, start as int)), start as int, buf@.len() as int),
    decreases buf@.len() - start, 1nat,
{
    let ghost s = tail(buf@, start as int);
    if start == buf.len() {
        return Ok(None);
    }
    let tag = buf[start];
    if !(tag == 43 || tag == 45 || tag == 58 || tag == 36 || tag == 42) {
        return Err(DecodeError::UnknownTag);
    }
    proof {
        lemma_line_end_shift(buf@, start as int, 1);
    }
    let j = match find_line_end(buf, start + 1) {
        Some(j) => j,
        None => {
            return Ok(None);
        },
    };
    assert(line_end(buf@, start + 1) == Some(j as int));
    assert(line_end(s, 1) == Some(j - start));
    let ghost line = s.subrange(1, j - start);
    assert(buf@.subrange(start + 1, j as int) =~= line);
    let next = j + 2;
    if tag == 43 || tag == 45 {
        match text_from_utf8(slice_subrange(buf, start + 1, j)) {
            Some(text) => {
                proof {
                    encode_utf8_decode_utf8(text@);
                }
                if tag == 43 {
                    Ok(Some((RespType::SimpleString(text), next)))
                } else {
                    Ok(Some((RespType::SimpleError(text), next)))
                }
            },
            None => Err(DecodeError::BadText),
        }
    } else if tag == 58 {
        match parse_i64_range(buf, start + 1, j) {
            Some(i) => Ok(Some((RespType::Integer(i), next))),
            None => Err(DecodeError::BadInteger),
        }
    } else {
        match parse_usize(buf, start + 1, j) {
            Some(n) => if tag == 36 {
                parse_bulk(buf, start, j, n)
            } else {
                parse_array(buf, start, j, n)
            },
            None => Err(DecodeError::BadLength),
        }
    }
}

#[verifier::loop_isolation(false)]
fn parse_array(buf: &[u8], start: usize, j: usize, n: usize) -> (r: Result<Option<(RespType, usize)>, DecodeError>)
    requires
        start < j,
        j + 1 < buf.len(),
        tail(buf@, start as int)[0] == 42u8,
        line_end(tail(buf@, start as int), 1) == Some(j - start),
        unsigned_value(tail(buf@, start as int).subrange(1, j - start)) == Some(n as nat),
    ensures
        decoded(r, parse_value(tail(buf@, start as int)), start as int, buf@.len() as int),
    decreases buf@.len() - start, 0nat,
{
    let ghost s = tail(buf@, start as int);
    proof {
        lemma_counted_value(s, j - start, n as nat);
    }
    let next = j + 2;
    let mut items: Vec<RespType> = Vec::new();
    let mut pos = next;
    let mut i: usize = 0;
    assert(views(items@) =~= Seq::<Value>::empty());
    assert(s.subrange(next - start, s.len() as int) =~= tail(buf@, next as int));
    while i < n
        invariant
            start < next <= pos <= buf@.len(),
            i <= n,
            prepend(Seq::empty(), 0, parse_elems(tail(buf@, next as int), n as nat)) == prepend(
                views(items@),
                (pos - next) as nat,
                parse_elems(tail(buf@, pos as int), (n - i) as nat),
            ),
        decreases n - i,
    {
        match parse_item(buf, pos) {
            Ok(Some((v, end))) => {
                let ghost value = v@;
                proof {
                    lemma_elems_step(
                        buf@,
                        pos as int,
                        (n - i) as nat,
                        views(items@),
                        (pos - next) as nat,
                        value,
                        (end - pos) as nat,
                    );
                }
                let ghost before = items@;
                items.push(v);
                assert(views(items@) =~= views(before).push(value));
                pos = end;
                i = i + 1;
            },
            Ok(None) => {
                return Ok(None);
            },
            Err(e) => {
                return Err(e);
            },
        }
    }
    let r = RespType::Array(items);
    assert(r@->Array_0 =~= views(items@));
    assert(views(items@) + Seq::<Value>::empty() =~= views(items@));
    Ok(Some((r, pos)))
}

/// An input buffer that received bytes are fed into and values are decoded from.
pub struct RespReader {
    buf: Vec<u8>,
}

impl View for RespReader {
    type V = Seq<u8>;

    /// The bytes received and not yet decoded.
    closed spec fn view(&self) -> Seq<u8> {
        self.buf@
    }
}

impl RespReader {
    pub fn new() -> (r: RespReader)
        ensures
            r@ == Seq::<u8>::empty(),
    {
        RespReader { buf: Vec::new() }
    }

    /// Adds received bytes after those already held.
    pub fn feed(&mut self, bytes: &[u8])
        ensures
            final(self)@ == old(self)@ + bytes@,
    {
        let mut i: usize = 0;
        while i < bytes.len()
            invariant
                i <= bytes@.len(),
                self.buf@ == old(self)@ + bytes@.take(i as int),
            decreases bytes@.len() - i,
        {
            self.buf.push(bytes[i]);
            i = i + 1;
            assert(self.buf@ =~= old(self)@ + bytes@.take(i as int));
        }
        assert(bytes@.take(i as int) =~= bytes@);
    }

    /// The number of bytes held and not yet decoded.
    pub fn buffered(&self) -> (r: usize)
        ensures
            r == self@.len(),
    {
        self.buf.len()
    }

    /// Decodes the next value from the bytes held and drops the bytes it took.
    /// `None` means that the held bytes end before the value does; nothing is
    /// dropped then, nor on a failure.
    pub fn read_item(&mut self) -> (r: Result<Option<RespType>, DecodeError>)
        ensures
            match parse_value(old(self)@) {
                Parsed::Done(v, k) => r is Ok && r->Ok_0 is Some && r->Ok_0->0@ == v
                    && final(self)@ == old(self)@.subrange(k as int, old(self)@.len() as int),
                Parsed::Incomplete => r == Ok::<Option<RespType>, DecodeError>(None)
                    && final(self)@ == old(self)@,
                Parsed::Failed(e) => r == Err::<Option<RespType>, DecodeError>(e)
                    && final(self)@ == old(self)@,
            },
    {
        assert(tail(self.buf@, 0) =~= self.buf@);
        match parse_item(self.buf.as_slice(), 0) {
            Ok(Some((v, end))) => {
                let rest = self.buf.split_off(end);
                self.buf = rest;
                Ok(Some(v))
            },
            Ok(None) => Ok(None),
            Err(e) => Err(e),
        }
    }
}

/// Text with no line break in it, as a simple string or error must be.
pub open spec fn no_line_break(t: Seq<char>) -> bool {
    forall|i: int| 0 <= i < t.len() ==> t[i] != '\r' && t[i] != '\n'
}

/// A value that has a wire form which decodes back to it: no null bulk string
/// anywhere, no line break in text, and integers and lengths in range.
pub open spec fn encodable(v: Value) -> bool
    decreases v,
{
    match v {
        Value::Simple(t) => no_line_break(t),
        Value::Error(t) => no_line_break(t),
        Value::Int(i) => i64::MIN <= i <= i64::MAX,
        Value::Bulk(b) => b.len() <= usize::MAX,
        Value::Null => false,
        Value::Array(items) => items.len() <= usize::MAX && forall|i: int|
            0 <= i < items.len() ==> encodable(#[trigger] items[i]),
    }
}

pub open spec fn no_cr(s: Seq<u8>) -> bool {
    forall|i: int| 0 <= i < s.len() ==> s[i] != 13u8
}

proof fn lemma_scalar_no_cr(c: u32)
    requires
        c != 13,
    ensures
        no_cr(encode_scalar(c)),
{
    assert(forall|x: u8| #![auto] (0xC0u8 | x) != 13u8) by (bit_vector);
    assert(forall|x: u8| #![auto] (0xE0u8 | x) != 13u8) by (bit_vector);
    assert(forall|x: u8| #![auto] (0xF0u8 | x) != 13u8) by (bit_vector);
    assert(forall|x: u8| #![auto] (0x80u8 | x) != 13u8) by (bit_vector);
    if has_width_1_encoding(c) {
        assert((c & 0x7Fu32) as u8 != 13u8) by (bit_vector)
            requires
                c <= 0x7Fu32,
                c != 13u32,
        ;
    }
}

proof fn lemma_utf8_no_cr(t: Seq<char>)
    requires
        no_line_break(t),
    ensures
        no_cr(encode_utf8(t)),
    decreases t.len(),
{
    if t.len() > 0 {
        lemma_utf8_no_cr(t.drop_first());
        assert(t[0] != '\r');
        assert(('\r' as u32) == 13u32);
        if t[0] as u32 == 13u32 {
            char_u32_cast(t[0], 13u32);
            char_u32_cast('\r', 13u32);
        }
        lemma_scalar_no_cr(t[0] as u32);
        let a = encode_scalar(t[0] as u32);
        let b = encode_utf8(t.drop_first());
        assert(encode_utf8(t) == a + b);
        assert forall|i: int| 0 <= i < (a + b).len() implies (a + b)[i] != 13u8 by {
            if i < a.len() {
                assert((a + b)[i] == a[i]);
            } else {
                assert((a + b)[i] == b[i - a.len()]);
            }
        }
    }
}

proof fn lemma_digits_no_cr(n: nat)
    ensures
        no_cr(nat_text(n)),
        no_cr(int_text(n as int)),
{
    lemma_nat_text_digits(n);
    assert forall|i: int| 0 <= i < nat_text(n).len() implies nat_text(n)[i] != 13u8 by {
        assert(crate::decimal::is_digit(nat_text(n)[i]));
    }
}

proof fn lemma_int_no_cr(i: int)
    ensures
        no_cr(int_text(i)),
{
    if i < 0 {
        lemma_digits_no_cr((-i) as nat);
        let t = seq![45u8] + nat_text((-i) as nat);
        assert forall|j: int| 0 <= j < t.len() implies t[j] != 13u8 by {
            if j > 0 {
                assert(t[j] == nat_text((-i) as nat)[j - 1]);
            }
        }
    } else {
        lemma_digits_no_cr(i as nat);
    }
}

/// A line whose text holds no carriage return ends where its line end is.
proof fn lemma_line_of(tag: u8, text: Seq<u8>, rest: Seq<u8>, i: int)
    requires
        no_cr(text),
        1 <= i <= text.len() + 1,
    ensures
        line_end(seq![tag] + text + crlf() + rest, i) == Some(text.len() + 1int),
    decreases text.len() + 1 - i,
{
    let s = seq![tag] + text + crlf() + rest;
    if i <= text.len() {
        assert(s[i] == text[i - 1]);
        lemma_line_of(tag, text, rest, i + 1);
    } else {
        assert(s[i] == 13u8);
        assert(s[i + 1] == 10u8);
    }
}

proof fn lemma_line_split(tag: u8, text: Seq<u8>, rest: Seq<u8>)
    requires
        no_cr(text),
    ensures
        ({
            let s = seq![tag] + text + crlf() + rest;
            &&& s.len() > 0
            &&& s[0] == tag
            &&& line_end(s, 1) == Some(text.len() + 1int)
            &&& s.subrange(1, text.len() + 1int) == text
            &&& s.subrange(text.len() + 3int, s.len() as int) == rest
        }),
{
    let s = seq![tag] + text + crlf() + rest;
    lemma_line_of(tag, text, rest, 1);
    assert(s.subrange(1, text.len() + 1int) =~= text);
    assert(s.subrange(text.len() + 3int, s.len() as int) =~= rest);
}

/// Decoding the wire form of an encodable value, followed by any bytes, gives the
/// value back and takes exactly the bytes of its wire form.
pub proof fn lemma_round_trip(v: Value, rest: Seq<u8>)
    requires
        encodable(v),
    ensures
        parse_value(encode(v) + rest) == Parsed::Done(v, encode(v).len()),
    decreases v,
{
    match v {
        Value::Simple(t) => {
            lemma_utf8_no_cr(t);
            lemma_line_split(43u8, encode_utf8(t), rest);
            assert(encode(v) + rest =~= seq![43u8] + encode_utf8(t) + crlf() + rest);
            encode_utf8_valid_utf8(t);
            encode_utf8_decode_utf8(t);
        },
        Value::Error(t) => {
            lemma_utf8_no_cr(t);
            lemma_line_split(45u8, encode_utf8(t), rest);
            assert(encode(v) + rest =~= seq![45u8] + encode_utf8(t) + crlf() + rest);
            encode_utf8_valid_utf8(t);
            encode_utf8_decode_utf8(t);
        },
        Value::Int(i) => {
            lemma_int_no_cr(i);
            lemma_line_split(58u8, int_text(i), rest);
            assert(encode(v) + rest =~= seq![58u8] + int_text(i) + crlf() + rest);
            lemma_signed_value_of_text(i);
        },
        Value::Bulk(b) => {
            let n = b.len();
            lemma_digits_no_cr(n);
            let after = b + crlf() + rest;
            lemma_line_split(36u8, nat_text(n), after);
            let s = encode(v) + rest;
            assert(s =~= seq![36u8] + nat_text(n) + crlf() + after);
            lemma_unsigned_value_of_text(n);
            let next: int = nat_text(n).len() + 3int;
            assert(s.subrange(next, next + n as int) =~= b);
            assert(s[next + n as int] == 13u8);
            assert(s[next + n as int + 1] == 10u8);
        },
        Value::Null => {},
        Value::Array(items) => {
            let n = items.len();
            lemma_digits_no_cr(n);
            let after = encode_all(items) + rest;
            lemma_line_split(42u8, nat_text(n), after);
            let s = encode(v) + rest;
            assert(s =~= seq![42u8] + nat_text(n) + crlf() + after);
            lemma_unsigned_value_of_text(n);
            lemma_round_trip_all(items, rest);
        },
    }
}

/// The same for a run of encodable values, one after the other.
pub proof fn lemma_round_trip_all(items: Seq<Value>, rest: Seq<u8>)
    requires
        forall|i: int| 0 <= i < items.len() ==> encodable(#[trigger] items[i]),
    ensures
        parse_elems(encode_all(items) + rest, items.len()) == ParsedSeq::Done(
            items,
            encode_all(items).len(),
        ),
    decreases items,
{
    if items.len() == 0 {
        assert(encode_all(items) + rest =~= rest);
        assert(items =~= Seq::<Value>::empty());
    } else {
        let first = items[0];
        let others = items.drop_first();
        let s = encode_all(items) + rest;
        assert(s =~= encode(first) + (encode_all(others) + rest));
        lemma_round_trip(first, encode_all(others) + rest);
        lemma_encode_nonempty(first);
        assert(s.subrange(encode(first).len() as int, s.len() as int) =~= encode_all(others) + rest);
        assert forall|i: int| 0 <= i < others.len() implies encodable(#[trigger] others[i]) by {
            assert(others[i] == items[i + 1]);
        }
        lemma_round_trip_all(others, rest);
        assert(seq![first] + others =~= items);
    }
}

proof fn lemma_encode_nonempty(v: Value)
    ensures
        encode(v).len() > 0,
{
}

} // verus!
