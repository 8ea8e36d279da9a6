//! The protocol value type and its mathematical model.
use vstd::prelude::*;
use vstd::slice::slice_to_vec;
use vstd::utf8::encode_utf8;

use crate::decimal::{int_text, nat_text, parse_i64, signed_value};

verus! {

/// What a protocol value is, as mathematics.
pub enum Value {
    Simple(Seq<char>),
    Error(Seq<char>),
    Int(int),
    Bulk(Seq<u8>),
    Null,
    Array(Seq<Value>),
}

/// A protocol value: the recursive sum type that travels on the wire.
#[derive(Debug, PartialEq, Eq)]
pub enum RespType {
    SimpleString(String),
    SimpleError(String),
    Integer(i64),
    BulkString(Vec<u8>),
    NullBulkString,
    Array(Vec<RespType>),
}

/// Why a value could not be read as the kind of argument asked for.
#[derive(Debug, PartialEq, Eq, Structural)]
pub enum ValueError {
    NotAString,
    NotAnInteger,
}

impl View for RespType {
    type V = Value;

    open spec fn view(&self) -> Value
        decreases self,
    {
        match self {
            RespType::SimpleString(s) => Value::Simple(s@),
            RespType::SimpleError(s) => Value::Error(s@),
            RespType::Integer(i) => Value::Int(*i as int),
            RespType::BulkString(b) => Value::Bulk(b@),
            RespType::NullBulkString => Value::Null,
            RespType::Array(items) => Value::Array(
                Seq::new(
                    items.len() as nat,
                    |i: int|
                        if 0 <= i < items.len() {
                            items[i].view()
                        } else {
                            Value::Null
                        },
                ),
            ),
        }
    }
}

/// The models of a run of values.
pub open spec fn views(s: Seq<RespType>) -> Seq<Value> {
    s.map_values(|a: RespType| a@)
}

pub open spec fn crlf() -> Seq<u8> {
    seq![13u8, 10u8]
}

/// The tag byte that opens the wire form of a value.
pub open spec fn tag_of(v: Value) -> u8 {
    match v {
        Value::Simple(_) => 43u8,
        Value::Error(_) => 45u8,
        Value::Int(_) => 58u8,
        Value::Bulk(_) => 36u8,
        Value::Null => 36u8,
        Value::Array(_) => 42u8,
    }
}

/// The wire form of a value.
pub open spec fn encode(v: Value) -> Seq<u8>
    decreases v,
{
    match v {
        Value::Simple(t) => seq![43u8] + encode_utf8(t) + crlf(),
        Value::Error(t) => seq![45u8] + encode_utf8(t) + crlf(),
        Value::Int(i) => seq![58u8] + int_text(i) + crlf(),
        Value::Bulk(b) => seq![36u8] + nat_text(b.len()) + crlf() + b + crlf(),
        Value::Null => seq![36u8, 45u8, 49u8] + crlf(),
        Value::Array(items) => seq![42u8] + nat_text(items.len()) + crlf() + encode_all(items),
    }
}

/// The wire forms of a sequence of values, one after the other.
pub open spec fn encode_all(items: Seq<Value>) -> Seq<u8>
    decreases items,
{
    if items.len() == 0 {
        Seq::empty()
    } else {
        encode(items[0]) + encode_all(items.drop_first())
    }
}

/// The frame of a snapshot payload: a bulk-string header and the raw bytes, with no
/// trailing line end.
pub open spec fn snapshot_frame(file: Seq<u8>) -> Seq<u8> {
    seq![36u8] + nat_text(file.len()) + crlf() + file
}

pub open spec fn ascii_lower(b: u8) -> u8 {
    if 65 <= b <= 90 {
        (b + 32) as u8
    } else {
        b
    }
}

pub open spec fn lower_bytes(s: Seq<u8>) -> Seq<u8> {
    s.map_values(|b: u8| ascii_lower(b))
}

pub open spec fn lower_char(c: char) -> char {
    if 'A' <= c <= 'Z' {
        ((c as u8) + 32) as u8 as char
    } else {
        c
    }
}

pub open spec fn lower_chars(s: Seq<char>) -> Seq<char> {
    s.map_values(|c: char| lower_char(c))
}

/// The bytes that a value holds as a string argument, if it is one.
pub open spec fn str_bytes(v: Value) -> Option<Seq<u8>> {
    match v {
        Value::Simple(t) => Some(encode_utf8(t)),
        Value::Bulk(b) => Some(b),
        _ => None,
    }
}

/// A string argument made lower case, as the dispatcher compares it.
pub open spec fn lowered(v: Value) -> Value {
    match v {
        Value::Simple(t) => Value::Simple(lower_chars(t)),
        Value::Bulk(b) => Value::Bulk(lower_bytes(b)),
        _ => v,
    }
}

/// The integer that a value holds, if it holds one: an integer value itself, or
/// the decimal text of a string value.
pub open spec fn int_of(v: Value) -> Option<int> {
    let parsed = match v {
        Value::Int(i) => Some(i),
        Value::Simple(t) => signed_value(encode_utf8(t)),
        Value::Bulk(b) => signed_value(b),
        _ => None,
    };
    match parsed {
        Some(i) => if i64::MIN <= i <= i64::MAX {
            Some(i)
        } else {
            None
        },
        None => None,
    }
}

/// Relies on `str::make_ascii_lowercase`: letters `A` to `Z` become `a` to `z`,
/// every other character stays.
#[verifier::external_body]
fn make_lowercase(s: &mut String)
    ensures
        final(s)@ == lower_chars(old(s)@),
{
    s.make_ascii_lowercase();
}

pub fn lower_byte(b: u8) -> (r: u8)
    ensures
        r == ascii_lower(b),
{
    if 65 <= b && b <= 90 {
        b + 32
    } else {
        b
    }
}

/// Makes every ASCII letter of `bytes` lower case, in place.
pub fn make_bytes_lowercase(bytes: &mut Vec<u8>)
    ensures
        final(bytes)@ == lower_bytes(old(bytes)@),
{
    let n = bytes.len();
    let mut i: usize = 0;
    while i < n
        invariant
            n == bytes.len(),
            n == old(bytes).len(),
            i <= n,
            forall|j: int| 0 <= j < i ==> bytes@[j] == ascii_lower(old(bytes)@[j]),
            forall|j: int| i <= j < n ==> bytes@[j] == old(bytes)@[j],
        decreases n - i,
    {
        let b = lower_byte(bytes[i]);
        bytes.set(i, b);
        i = i + 1;
    }
    assert(bytes@ =~= lower_bytes(old(bytes)@));
}

impl RespType {
    /// The tag byte that opens this value's wire form.
    pub fn first_byte(&self) -> (r: u8)
        ensures
            r == tag_of(self@),
    {
        match self {
            RespType::SimpleString(_) => 43,
            RespType::SimpleError(_) => 45,
            RespType::Integer(_) => 58,
            RespType::BulkString(_) | RespType::NullBulkString => 36,
            RespType::Array(_) => 42,
        }
    }

    /// The bytes of a simple or bulk string.
    pub fn as_str_bytes(&self) -> (r: Result<&[u8], ValueError>)
        ensures
            match str_bytes(self@) {
                Some(b) => r is Ok && r->Ok_0@ == b,
                None => r == Err::<&[u8], ValueError>(ValueError::NotAString),
            },
    {
        match self {
            RespType::SimpleString(s) => Ok(s.as_str().as_bytes()),
            RespType::BulkString(b) => Ok(b.as_slice()),
            _ => Err(ValueError::NotAString),
        }
    }

    /// The integer this value holds: an integer itself, or a string of decimal text.
    pub fn as_int(&self) -> (r: Result<i64, ValueError>)
        ensures
            match int_of(self@) {
                Some(i) => r == Ok::<i64, ValueError>(i as i64),
                None => r == Err::<i64, ValueError>(ValueError::NotAnInteger),
            },
    {
        match self {
            RespType::Integer(i) => Ok(*i),
            RespType::SimpleString(s) => match parse_i64(s.as_str().as_bytes()) {
                Some(i) => Ok(i),
                None => Err(ValueError::NotAnInteger),
            },
            RespType::BulkString(b) => match parse_i64(b.as_slice()) {
                Some(i) => Ok(i),
                None => Err(ValueError::NotAnInteger),
            },
            _ => Err(ValueError::NotAnInteger),
        }
    }

    /// Makes a simple or bulk string lower case in place and hands back its bytes.
    pub fn make_str_bytes_lowercase(&mut self) -> (r: Result<Vec<u8>, ValueError>)
        ensures
            str_bytes(old(self)@) is Some ==> r is Ok && final(self)@ == lowered(old(self)@)
                && str_bytes(final(self)@) == Some(r->Ok_0@),
            str_bytes(old(self)@) is None ==> r == Err::<Vec<u8>, ValueError>(
                ValueError::NotAString,
            ) && final(self)@ == old(self)@,
    {
        match self {
            RespType::SimpleString(s) => {
                make_lowercase(s);
                Ok(slice_to_vec(s.as_str().as_bytes()))
            },
            RespType::BulkString(b) => {
                make_bytes_lowercase(b);
                Ok(b.clone())
            },
            _ => Err(ValueError::NotAString),
        }
    }

    /// A bulk string holding a copy of `bytes`.
    pub fn bulk_string_from_bytes(bytes: &[u8]) -> (r: RespType)
        ensures
            r@ == Value::Bulk(bytes@),
    {
        RespType::BulkString(slice_to_vec(bytes))
    }

    /// A bulk string holding the UTF-8 bytes of `s`.
    pub fn bulk_string_from_string(s: String) -> (r: RespType)
        ensures
            r@ == Value::Bulk(encode_utf8(s@)),
    {
        RespType::BulkString(slice_to_vec(s.as_str().as_bytes()))
    }
}

} // verus!
