//! The replica side of the replication handshake: a state machine that a caller
//! drives with the primary's replies and that names the next request to send.
use vstd::prelude::*;
use vstd::string::StrSliceExecFns;
use vstd::utf8::encode_utf8;

use crate::decimal::{nat_text, push_nat_text};
use crate::resp::{RespType, Value};

verus! {

/// Where the handshake stands.
#[derive(Debug)]
pub enum HandshakeState {
    /// `PING` was sent; `PONG` is due.
    AwaitPong,
    /// `REPLCONF listening-port` was sent; `OK` is due.
    AwaitPortAck,
    /// `REPLCONF capa psync2` was sent; `OK` is due.
    AwaitCapaAck,
    /// `PSYNC ? -1` was sent; `FULLRESYNC <run-id> 0` is due.
    AwaitFullResync,
    /// The primary accepted a full resync; its run-id is kept.
    ResyncAccepted { master_id: String },
}

/// Why the handshake failed. Each of these ends it.
#[derive(Debug, PartialEq, Eq, Structural)]
pub enum HandshakeError {
    /// The primary closed the stream before replying.
    StreamClosed,
    /// The reply is not the one this step waits for.
    UnexpectedReply,
    /// The full-resync line does not hold a run-id and an offset.
    MalformedFullResync,
    /// The full-resync offset is not `0`.
    NonZeroOffset,
}

/// The handshake's state, as mathematics.
pub enum Phase {
    AwaitPong,
    AwaitPortAck,
    AwaitCapaAck,
    AwaitFullResync,
    ResyncAccepted(Seq<char>),
}

impl View for HandshakeState {
    type V = Phase;

    open spec fn view(&self) -> Phase {
        match self {
            HandshakeState::AwaitPong => Phase::AwaitPong,
            HandshakeState::AwaitPortAck => Phase::AwaitPortAck,
            HandshakeState::AwaitCapaAck => Phase::AwaitCapaAck,
            HandshakeState::AwaitFullResync => Phase::AwaitFullResync,
            HandshakeState::ResyncAccepted { master_id } => Phase::ResyncAccepted(master_id@),
        }
    }
}

pub open spec fn bulk_word(w: Seq<char>) -> Value {
    Value::Bulk(encode_utf8(w))
}

/// `PING`, as the handshake sends it.
pub open spec fn ping_request() -> Value {
    Value::Array(seq![bulk_word("ping"@)])
}

/// `REPLCONF listening-port <port>`.
pub open spec fn port_request(port: u16) -> Value {
    Value::Array(
        seq![bulk_word("REPLCONF"@), bulk_word("listening-port"@), Value::Bulk(nat_text(port as nat))],
    )
}

/// `REPLCONF capa psync2`.
pub open spec fn capa_request() -> Value {
    Value::Array(seq![bulk_word("REPLCONF"@), bulk_word("capa"@), bulk_word("psync2"@)])
}

/// `PSYNC ? -1`.
pub open spec fn psync_request() -> Value {
    Value::Array(seq![bulk_word("PSYNC"@), bulk_word("?"@), bulk_word("-1"@)])
}

/// Where the first space in `t` at or after `from` is.
pub open spec fn space_at_or_after(t: Seq<char>, from: int) -> Option<int>
    decreases t.len() - from,
{
    if from < 0 || from >= t.len() {
        None
    } else if t[from] == ' ' {
        Some(from)
    } else {
        space_at_or_after(t, from + 1)
    }
}

/// What a `FULLRESYNC` line says: the run-id, when the line has the prefix, a space
/// after the run-id, and the offset `0`.
pub open spec fn full_resync_id(t: Seq<char>) -> Result<Seq<char>, HandshakeError> {
    let prefix = "FULLRESYNC "@;
    if t.len() < prefix.len() || t.subrange(0, prefix.len() as int) != prefix {
        Err(HandshakeError::UnexpectedReply)
    } else {
        match space_at_or_after(t, prefix.len() as int) {
            None => Err(HandshakeError::MalformedFullResync),
            Some(p) => if t.subrange(p + 1, t.len() as int) == "0"@ {
                Ok(t.subrange(prefix.len() as int, p))
            } else {
                Err(HandshakeError::NonZeroOffset)
            },
        }
    }
}

/// One step of the handshake: from the phase and the primary's reply (`None` when
/// the stream closed) to the next phase and the next request, if any.
pub open spec fn handshake_step(phase: Phase, port: u16, reply: Option<Value>) -> Result<
    (Phase, Option<Value>),
    HandshakeError,
> {
    match reply {
        None => Err(HandshakeError::StreamClosed),
        Some(v) => match phase {
            Phase::AwaitPong => if v == Value::Simple("PONG"@) {
                Ok((Phase::AwaitPortAck, Some(port_request(port))))
            } else {
                Err(HandshakeError::UnexpectedReply)
            },
            Phase::AwaitPortAck => if v == Value::Simple("OK"@) {
                Ok((Phase::AwaitCapaAck, Some(capa_request())))
            } else {
                Err(HandshakeError::UnexpectedReply)
            },
            Phase::AwaitCapaAck => if v == Value::Simple("OK"@) {
                Ok((Phase::AwaitFullResync, Some(psync_request())))
            } else {
                Err(HandshakeError::UnexpectedReply)
            },
            Phase::AwaitFullResync => match v {
                Value::Simple(t) => match full_resync_id(t) {
                    Ok(id) => Ok((Phase::ResyncAccepted(id), None)),
                    Err(e) => Err(e),
                },
                _ => Err(HandshakeError::UnexpectedReply),
            },
            Phase::ResyncAccepted(_) => Err(HandshakeError::UnexpectedReply),
        },
    }
}

fn bulk(word: &str) -> (r: RespType)
    ensures
        r@ == bulk_word(word@),
{
    RespType::bulk_string_from_bytes(word.as_bytes())
}

fn array3(a: RespType, b: RespType, c: RespType) -> (r: RespType)
    ensures
        r@ == Value::Array(seq![a@, b@, c@]),
{
    let mut items: Vec<RespType> = Vec::new();
    items.push(a);
    items.push(b);
    items.push(c);
    let r = RespType::Array(items);
    assert(r@->Array_0 =~= seq![a@, b@, c@]);
    r
}

/// Starts the handshake: the first phase and the `PING` to send.
pub fn handshake_start() -> (r: (HandshakeState, RespType))
    ensures
        r.0@ == Phase::AwaitPong,
        r.1@ == ping_request(),
{
    let mut items: Vec<RespType> = Vec::new();
    items.push(bulk("ping"));
    let r = RespType::Array(items);
    assert(r@->Array_0 =~= seq![bulk_word("ping"@)]);
    (HandshakeState::AwaitPong, r)
}

fn is_simple(reply: &RespType, word: &str) -> (r: bool)
    ensures
        r == (reply@ == Value::Simple(word@)),
{
    match reply {
        RespType::SimpleString(s) => string_equal(s.as_str(), word),
        _ => false,
    }
}

fn string_equal(a: &str, b: &str) -> (r: bool)
    ensures
        r == (a@ == b@),
{
    let n = a.unicode_len();
    if n != b.unicode_len() {
        return false;
    }
    let mut i: usize = 0;
    while i < n
        invariant
            n == a@.len(),
            n == b@.len(),
            i <= n,
            forall|j: int| 0 <= j < i ==> a@[j] == b@[j],
        decreases n - i,
    {
        if a.get_char(i) != b.get_char(i) {
            return false;
        }
        i = i + 1;
    }
    assert(a@ =~= b@);
    true
}

/// Reads a `FULLRESYNC <run-id> <offset>` line and gives the run-id.
pub fn parse_full_resync(line: &str) -> (r: Result<String, HandshakeError>)
    ensures
        match full_resync_id(line@) {
            Ok(id) => r is Ok && r->Ok_0@ == id,
            Err(e) => r == Err::<String, HandshakeError>(e),
        },
{
    proof {
        reveal_strlit("FULLRESYNC ");
    }
    let prefix = "FULLRESYNC ";
    let n = line.unicode_len();
    let plen = prefix.unicode_len();
    if n < plen || !string_equal(line.substring_char(0, plen), prefix) {
        return Err(HandshakeError::UnexpectedReply);
    }
    let mut p = plen;
    while p < n
        invariant
            n == line@.len(),
            plen <= p <= n,
            space_at_or_after(line@, plen as int) == space_at_or_after(line@, p as int),
        ensures
            p == n || (p < n && line@[p as int] == ' '),
        decreases n - p,
    {
        if line.get_char(p) == ' ' {
            break;
        }
        p = p + 1;
    }
    if p == n {
        return Err(HandshakeError::MalformedFullResync);
    }
    assert(space_at_or_after(line@, plen as int) == Some(p as int));
    if !string_equal(line.substring_char(p + 1, n), "0") {
        return Err(HandshakeError::NonZeroOffset);
    }
    Ok(line.substring_char(plen, p).to_string())
}

/// Takes one step of the handshake with the primary's reply (`None` when the stream
/// closed): the next state and the next request to send, if any.
pub fn handshake_next(state: &HandshakeState, port: u16, reply: Option<RespType>) -> (r: Result<
    (HandshakeState, Option<RespType>),
    HandshakeError,
>)
    ensures
        match handshake_step(state@, port, match reply {
            Some(v) => Some(v@),
            None => None,
        }) {
            Ok((phase, request)) => r is Ok && (r->Ok_0).0@ == phase && match request {
                Some(q) => (r->Ok_0).1 is Some && (r->Ok_0).1->0@ == q,
                None => (r->Ok_0).1 is None,
            },
            Err(e) => r == Err::<(HandshakeState, Option<RespType>), HandshakeError>(e),
        },
{
    let reply = match reply {
        Some(v) => v,
        None => {
            return Err(HandshakeError::StreamClosed);
        },
    };
    match state {
        HandshakeState::AwaitPong => {
            if !is_simple(&reply, "PONG") {
                return Err(HandshakeError::UnexpectedReply);
            }
            let mut digits: Vec<u8> = Vec::new();
            push_nat_text(&mut digits, port as u64);
            let request = array3(bulk("REPLCONF"), bulk("listening-port"), RespType::BulkString(digits));
            Ok((HandshakeState::AwaitPortAck, Some(request)))
        },
        HandshakeState::AwaitPortAck => {
            if !is_simple(&reply, "OK") {
                return Err(HandshakeError::UnexpectedReply);
            }
            Ok((HandshakeState::AwaitCapaAck, Some(array3(bulk("REPLCONF"), bulk("capa"), bulk("psync2")))))
        },
        HandshakeState::AwaitCapaAck => {
            if !is_simple(&reply, "OK") {
                return Err(HandshakeError::UnexpectedReply);
            }
            Ok((HandshakeState::AwaitFullResync, Some(array3(bulk("PSYNC"), bulk("?"), bulk("-1")))))
        },
        HandshakeState::AwaitFullResync => match &reply {
            RespType::SimpleString(s) => match parse_full_resync(s.as_str()) {
                Ok(id) => Ok((HandshakeState::ResyncAccepted { master_id: id }, None)),
                Err(e) => Err(e),
            },
            _ => Err(HandshakeError::UnexpectedReply),
        },
        HandshakeState::ResyncAccepted { .. } => Err(HandshakeError::UnexpectedReply),
    }
}

} // verus!
