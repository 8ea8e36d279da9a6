//! Turning protocol values into wire bytes.
use vstd::prelude::*;

use crate::decimal::{push_int_text, push_nat_text};
use crate::resp::{crlf, encode, encode_all, snapshot_frame, RespType, Value};

verus! {

pub proof fn lemma_encode_all_append(a: Seq<Value>, b: Seq<Value>)
    ensures
        encode_all(a + b) == encode_all(a) + encode_all(b),
    decreases a.len(),
{
    if a.len() == 0 {
        assert(a + b =~= b);
        assert(encode_all(a) + encode_all(b) =~= encode_all(b));
    } else {
        assert((a + b).drop_first() =~= a.drop_first() + b);
        lemma_encode_all_append(a.drop_first(), b);
        assert(encode_all(a + b) =~= encode_all(a) + encode_all(b));
    }
}

pub proof fn lemma_encode_all_push(a: Seq<Value>, v: Value)
    ensures
        encode_all(a.push(v)) == encode_all(a) + encode(v),
{
    assert(a.push(v) =~= a + seq![v]);
    lemma_encode_all_append(a, seq![v]);
    assert(seq![v].drop_first() =~= Seq::<Value>::empty());
    assert(seq![v][0] == v);
    assert(encode_all(Seq::<Value>::empty()) == Seq::<u8>::empty());
    assert(encode_all(seq![v]) =~= encode(v));
}

pub(crate) fn push_crlf(out: &mut Vec<u8>)
    ensures
        final(out)@ == old(out)@ + crlf(),
{
    out.push(13);
    out.push(10);
    assert(final(out)@ =~= old(out)@ + crlf());
}

pub(crate) fn push_bytes(out: &mut Vec<u8>, bytes: &[u8])
    ensures
        final(out)@ == old(out)@ + bytes@,
{
    let mut i: usize = 0;
    while i < bytes.len()
        invariant
            i <= bytes@.len(),
            out@ == old(out)@ + bytes@.take(i as int),
        decreases bytes@.len() - i,
    {
        out.push(bytes[i]);
        i = i + 1;
        assert(out@ =~= old(out)@ + bytes@.take(i as int));
    }
    assert(bytes@.take(i as int) =~= bytes@);
}

/// Appends the wire form of `item` to `out`.
#[verifier::loop_isolation(false)]
pub fn encode_into(out: &mut Vec<u8>, item: &RespType)
    ensures
        final(out)@ == old(out)@ + encode(item@),
    decreases item,
{
    match item {
        RespType::SimpleString(s) => {
            out.push(43);
            push_bytes(out, s.as_str().as_bytes());
            push_crlf(out);
            assert(final(out)@ =~= old(out)@ + encode(item@));
        },
        RespType::SimpleError(s) => {
            out.push(45);
            push_bytes(out, s.as_str().as_bytes());
            push_crlf(out);
            assert(final(out)@ =~= old(out)@ + encode(item@));
        },
        RespType::Integer(i) => {
            out.push(58);
            push_int_text(out, *i);
            push_crlf(out);
            assert(final(out)@ =~= old(out)@ + encode(item@));
        },
        RespType::BulkString(b) => {
            out.push(36);
            push_nat_text(out, b.len() as u64);
            push_crlf(out);
            push_bytes(out, b.as_slice());
            push_crlf(out);
            assert(final(out)@ =~= old(out)@ + encode(item@));
        },
        RespType::NullBulkString => {
            out.push(36);
            out.push(45);
            out.push(49);
            push_crlf(out);
            assert(final(out)@ =~= old(out)@ + encode(item@));
        },
        RespType::Array(items) => {
            let ghost vals = item@->Array_0;
            assert(vals.len() == items.len());
            assert(forall|j: int| 0 <= j < items.len() ==> vals[j] == (#[trigger] items[j])@);
            out.push(42);
            push_nat_text(out, items.len() as u64);
            push_crlf(out);
            let ghost head = out@;
            let mut i: usize = 0;
            assert(vals.take(0) =~= Seq::<Value>::empty());
            while i < items.len()
                invariant
                    i <= items.len(),
                    vals.len() == items.len(),
                    forall|j: int| 0 <= j < items.len() ==> vals[j] == (#[trigger] items[j])@,
                    out@ == head + encode_all(vals.take(i as int)),
                decreases items.len() - i,
            {
                proof {
                    vstd::std_specs::vec::axiom_vec_index_decreases(*items, i as int);
                }
                encode_into(out, &items[i]);
                proof {
                    assert(vals.take(i as int + 1) =~= vals.take(i as int).push(vals[i as int]));
                    lemma_encode_all_push(vals.take(i as int), vals[i as int]);
                }
                i = i + 1;
                assert(out@ =~= head + encode_all(vals.take(i as int)));
            }
            assert(vals.take(i as int) =~= vals);
            assert(final(out)@ =~= old(out)@ + encode(item@));
        },
    }
}

/// Appends a snapshot payload framed as a bulk string without the closing line end.
pub fn push_snapshot_frame(out: &mut Vec<u8>, file: &[u8])
    ensures
        final(out)@ == old(out)@ + snapshot_frame(file@),
{
    out.push(36);
    push_nat_text(out, file.len() as u64);
    push_crlf(out);
    push_bytes(out, file);
    assert(final(out)@ =~= old(out)@ + snapshot_frame(file@));
}

/// An output buffer that protocol values are written into, to be sent as a whole.
pub struct RespWriter {
    buf: Vec<u8>,
}

impl View for RespWriter {
    type V = Seq<u8>;

    closed spec fn view(&self) -> Seq<u8> {
        self.buf@
    }
}

impl RespWriter {
    pub fn new() -> (r: RespWriter)
        ensures
            r@ == Seq::<u8>::empty(),
    {
        RespWriter { buf: Vec::new() }
    }

    /// Appends the wire form of `item`.
    pub fn write_item(&mut self, item: RespType)
        ensures
            final(self)@ == old(self)@ + encode(item@),
    {
        encode_into(&mut self.buf, &item);
    }

    /// Appends a snapshot payload framed as a bulk string without the closing line end.
    pub fn write_rdb_file(&mut self, file: &[u8])
        ensures
            final(self)@ == old(self)@ + snapshot_frame(file@),
    {
        push_snapshot_frame(&mut self.buf, file);
    }

    /// Hands out everything written so far and empties the buffer.
    pub fn take_output(&mut self) -> (r: Vec<u8>)
        ensures
            r@ == old(self)@,
            final(self)@ == Seq::<u8>::empty(),
    {
        self.buf.split_off(0)
    }
}

} // verus!
