//! The command dispatcher: from a command name and its arguments to the reply
//! bytes, reading and changing the store on the way.
use vstd::prelude::*;
use vstd::utf8::{encode_utf8, encode_utf8_decode_utf8, is_ascii_chars, is_ascii_chars_encode_utf8};

use crate::data::{bytes_equal, deadline, live_value, Data};
use crate::decimal::{nat_text, push_nat_text};
use crate::resp::{
    crlf, encode, int_of, lower_bytes, lowered, snapshot_frame, str_bytes, views, RespType, Value,
};
use crate::server::{empty_snapshot, empty_snapshot_bytes, ReplicationMode, ServerInfo};
use crate::writer::{encode_into, push_bytes, push_crlf, push_snapshot_frame};

verus! {

/// Why a request was refused. Each of these ends the connection.
#[derive(Debug, PartialEq, Eq, Structural)]
pub enum CommandError {
    /// The command got a number of arguments it does not take.
    WrongArity,
    /// An argument is not a bulk string where one is needed.
    InvalidArgument,
    /// The value of `PX` is not an integer.
    NotAnInteger,
    /// The value of `PX` is negative.
    NegativeExpiry,
    /// The expiry lies beyond the clock's range.
    ExpiryOutOfRange,
    /// `PX` came without a value.
    MissingOptionValue,
    /// `SET` got an option it does not know.
    UnknownOption,
    /// `PSYNC` got other arguments than `?` and `-1`.
    UnexpectedPsyncArgs,
    /// The command name is not one this server knows.
    UnknownCommand,
    /// The request is a simple error, an integer, an empty or nested array, or a
    /// null bulk string, none of which names a command.
    MalformedRequest,
}

/// What a command does: the bytes of its reply and the store after it, or a failure
/// that leaves the store as it was.
pub enum Outcome {
    Reply(Seq<u8>, Map<Seq<u8>, (Seq<u8>, Option<u64>)>),
    Fail(CommandError),
}

/// The expiry that the option tokens of `SET` ask for, `ttl` being what earlier
/// tokens asked for. Tokens and values are bulk strings; a later `PX` replaces an
/// earlier one.
pub open spec fn set_ttl(opts: Seq<Value>, ttl: Option<u64>) -> Result<Option<u64>, CommandError>
    decreases opts.len(),
{
    if opts.len() == 0 {
        Ok(ttl)
    } else {
        match opts[0] {
            Value::Bulk(token) => if lower_bytes(token) == encode_utf8("px"@) {
                if opts.len() < 2 {
                    Err(CommandError::MissingOptionValue)
                } else if !(opts[1] is Bulk) {
                    Err(CommandError::InvalidArgument)
                } else {
                    match int_of(opts[1]) {
                        None => Err(CommandError::NotAnInteger),
                        Some(d) => if d < 0 {
                            Err(CommandError::NegativeExpiry)
                        } else {
                            set_ttl(opts.subrange(2, opts.len() as int), Some(d as u64))
                        },
                    }
                }
            } else {
                Err(CommandError::UnknownOption)
            },
            _ => Err(CommandError::InvalidArgument),
        }
    }
}

/// The text of the `INFO` report.
pub open spec fn info_text(info: ServerInfo) -> Seq<u8> {
    encode_utf8("# Replication"@) + (match info.replication {
        ReplicationMode::Master => encode_utf8("\nrole:master"@),
        ReplicationMode::Slave { .. } => encode_utf8("\nrole:slave"@),
    }) + encode_utf8("\nmaster_replid:"@) + encode_utf8(info.master_replid@) + encode_utf8(
        "\nmaster_repl_offset:"@,
    ) + nat_text(info.master_repl_offset as nat)
}

/// The reply to `PSYNC ? -1`: the full-resync line, then the snapshot.
pub open spec fn full_resync_reply(info: ServerInfo) -> Seq<u8> {
    seq![43u8] + encode_utf8("FULLRESYNC "@) + encode_utf8(info.master_replid@) + seq![32u8]
        + nat_text(info.master_repl_offset as nat) + crlf() + snapshot_frame(empty_snapshot())
}

/// What `GET` does: the live value of the key, or null; an expired entry is removed.
pub open spec fn get_outcome(m: Map<Seq<u8>, (Seq<u8>, Option<u64>)>, now: u64, args: Seq<Value>) -> Outcome {
        if args.len() != 1 {
            Outcome::Fail(CommandError::WrongArity)
        } else {
            match args[0] {
                Value::Bulk(k) => {
                    let m2 = if m.contains_key(k) && live_value(m, k, now) is None {
                        m.remove(k)
                    } else {
                        m
                    };
                    match live_value(m, k, now) {
                        Some(v) => Outcome::Reply(encode(Value::Bulk(v)), m2),
                        None => Outcome::Reply(encode(Value::Null), m2),
                    }
                },
                _ => Outcome::Fail(CommandError::InvalidArgument),
            }
        }
}

/// What `SET` does: store the value under the key, with the expiry its options ask for.
pub open spec fn set_outcome(m: Map<Seq<u8>, (Seq<u8>, Option<u64>)>, now: u64, args: Seq<Value>) -> Outcome {
        if args.len() < 2 {
            Outcome::Fail(CommandError::WrongArity)
        } else {
            match (args[0], args[1]) {
                (Value::Bulk(k), Value::Bulk(v)) => match set_ttl(
                    args.subrange(2, args.len() as int),
                    None,
                ) {
                    Err(e) => Outcome::Fail(e),
                    Ok(ttl) => if ttl is Some && now + ttl->0 > u64::MAX {
                        Outcome::Fail(CommandError::ExpiryOutOfRange)
                    } else {
                        Outcome::Reply(
                            encode(Value::Simple("OK"@)),
                            m.insert(k, (v, deadline(ttl, now))),
                        )
                    },
                },
                _ => Outcome::Fail(CommandError::InvalidArgument),
            }
        }
}

/// What the command `name` (already lower case) does with `args`, on a store
/// holding `m`, at time `now`.
pub open spec fn command_outcome(
    info: ServerInfo,
    m: Map<Seq<u8>, (Seq<u8>, Option<u64>)>,
    now: u64,
    name: Seq<u8>,
    args: Seq<Value>,
) -> Outcome {
    if name == encode_utf8("ping"@) {
        if args.len() == 0 {
            Outcome::Reply(encode(Value::Simple("PONG"@)), m)
        } else {
            Outcome::Fail(CommandError::WrongArity)
        }
    } else if name == encode_utf8("echo"@) {
        if args.len() != 1 {
            Outcome::Fail(CommandError::WrongArity)
        } else if args[0] is Bulk {
            Outcome::Reply(encode(args[0]), m)
        } else {
            Outcome::Fail(CommandError::InvalidArgument)
        }
    } else if name == encode_utf8("get"@) {
        get_outcome(m, now, args)
    } else if name == encode_utf8("set"@) {
        set_outcome(m, now, args)
    } else if name == encode_utf8("info"@) {
        Outcome::Reply(encode(Value::Bulk(info_text(info))), m)
    } else if name == encode_utf8("command"@) {
        Outcome::Reply(encode(Value::Array(Seq::empty())), m)
    } else if name == encode_utf8("replconf"@) {
        Outcome::Reply(encode(Value::Simple("OK"@)), m)
    } else if name == encode_utf8("psync"@) {
        if args.len() != 2 {
            Outcome::Fail(CommandError::WrongArity)
        } else {
            match (args[0], args[1]) {
                (Value::Bulk(id), Value::Bulk(offset)) => if id == encode_utf8("?"@) && offset
                    == encode_utf8("-1"@) {
                    Outcome::Reply(full_resync_reply(info), m)
                } else {
                    Outcome::Fail(CommandError::UnexpectedPsyncArgs)
                },
                _ => Outcome::Fail(CommandError::InvalidArgument),
            }
        }
    } else {
        Outcome::Fail(CommandError::UnknownCommand)
    }
}

pub open spec fn outcome_holds(
    outcome: Outcome,
    r: Result<Vec<u8>, CommandError>,
    before: Map<Seq<u8>, (Seq<u8>, Option<u64>)>,
    after: Map<Seq<u8>, (Seq<u8>, Option<u64>)>,
) -> bool {
    match outcome {
        Outcome::Reply(bytes, m) => r is Ok && r->Ok_0@ == bytes && after == m,
        Outcome::Fail(e) => r == Err::<Vec<u8>, CommandError>(e) && after == before,
    }
}

proof fn lemma_views_remove_first(s: Seq<RespType>)
    requires
        s.len() > 0,
    ensures
        views(s.remove(0)) == views(s).subrange(1, s.len() as int),
        views(s)[0] == s[0]@,
{
    assert(views(s.remove(0)) =~= views(s).subrange(1, s.len() as int));
}

/// Reads the option tokens of `SET`, consuming them, and gives the expiry they ask for.
fn parse_set_options(args: &mut Vec<RespType>) -> (r: Result<Option<u64>, CommandError>)
    ensures
        r == set_ttl(views(old(args)@), None),
{
    let ghost whole = views(args@);
    let mut ttl: Option<u64> = None;
    while args.len() > 0
        invariant
            whole == views(old(args)@),
            set_ttl(whole, None) == set_ttl(views(args@), ttl),
        decreases args.len(),
    {
        let ghost opts = views(args@);
        proof {
            lemma_views_remove_first(args@);
        }
        let mut arg = args.remove(0);
        if !matches!(arg, RespType::BulkString(_)) {
            return Err(CommandError::InvalidArgument);
        }
        let name = match arg.make_str_bytes_lowercase() {
            Ok(name) => name,
            Err(_) => {
                return Err(CommandError::InvalidArgument);
            },
        };
        if !bytes_equal(name.as_slice(), "px".as_bytes()) {
            return Err(CommandError::UnknownOption);
        }
        if args.len() == 0 {
            return Err(CommandError::MissingOptionValue);
        }
        proof {
            lemma_views_remove_first(args@);
        }
        let value = args.remove(0);
        if !matches!(value, RespType::BulkString(_)) {
            return Err(CommandError::InvalidArgument);
        }
        let millis = match value.as_int() {
            Ok(d) => d,
            Err(_) => {
                return Err(CommandError::NotAnInteger);
            },
        };
        if millis < 0 {
            return Err(CommandError::NegativeExpiry);
        }
        ttl = Some(millis as u64);
        assert(views(args@) =~= opts.subrange(2, opts.len() as int));
    }
    assert(views(args@) =~= Seq::<Value>::empty());
    Ok(ttl)
}

fn get_command(data: &mut Data, now: u64, args: Vec<RespType>) -> (r: Result<Vec<u8>, CommandError>)
    requires
        old(data).wf(),
    ensures
        final(data).wf(),
        outcome_holds(get_outcome(old(data).view(), now, views(args@)), r, old(data).view(), final(data).view()),
{
    if args.len() != 1 {
        return Err(CommandError::WrongArity);
    }
    assert(views(args@)[0] == args@[0]@);
    match &args[0] {
        RespType::BulkString(key) => {
            let value = data.get(key.as_slice(), now);
            let reply = match value {
                Some(v) => RespType::BulkString(v),
                None => RespType::NullBulkString,
            };
            let mut out: Vec<u8> = Vec::new();
            encode_into(&mut out, &reply);
            Ok(out)
        },
        _ => Err(CommandError::InvalidArgument),
    }
}

fn set_command(data: &mut Data, now: u64, args: Vec<RespType>) -> (r: Result<Vec<u8>, CommandError>)
    requires
        old(data).wf(),
    ensures
        final(data).wf(),
        outcome_holds(set_outcome(old(data).view(), now, views(args@)), r, old(data).view(), final(data).view()),
{
    let ghost all = views(args@);
    if args.len() < 2 {
        return Err(CommandError::WrongArity);
    }
    let mut args = args;
    proof {
        lemma_views_remove_first(args@);
    }
    let key = match args.remove(0) {
        RespType::BulkString(k) => k,
        _ => {
            return Err(CommandError::InvalidArgument);
        },
    };
    proof {
        lemma_views_remove_first(args@);
    }
    let value = match args.remove(0) {
        RespType::BulkString(v) => v,
        _ => {
            return Err(CommandError::InvalidArgument);
        },
    };
    assert(views(args@) =~= all.subrange(2, all.len() as int));
    let ttl = match parse_set_options(&mut args) {
        Ok(t) => t,
        Err(e) => {
            return Err(e);
        },
    };
    if let Some(d) = ttl {
        if d > u64::MAX - now {
            return Err(CommandError::ExpiryOutOfRange);
        }
    }
    let _previous = data.set(key, value, ttl, now);
    let mut out: Vec<u8> = Vec::new();
    encode_into(&mut out, &RespType::SimpleString("OK".to_string()));
    Ok(out)
}

fn info_command(info: &ServerInfo) -> (r: Vec<u8>)
    ensures
        r@ == encode(Value::Bulk(info_text(*info))),
{
    let mut text: Vec<u8> = Vec::new();
    push_bytes(&mut text, "# Replication".as_bytes());
    match &info.replication {
        ReplicationMode::Master => push_bytes(&mut text, "\nrole:master".as_bytes()),
        ReplicationMode::Slave { .. } => push_bytes(&mut text, "\nrole:slave".as_bytes()),
    }
    push_bytes(&mut text, "\nmaster_replid:".as_bytes());
    push_bytes(&mut text, info.master_replid.as_str().as_bytes());
    push_bytes(&mut text, "\nmaster_repl_offset:".as_bytes());
    push_nat_text(&mut text, info.master_repl_offset);
    assert(text@ =~= info_text(*info));
    let mut out: Vec<u8> = Vec::new();
    encode_into(&mut out, &RespType::BulkString(text));
    out
}

fn psync_command(info: &ServerInfo, args: Vec<RespType>) -> (r: Result<Vec<u8>, CommandError>)
    ensures
        ({
            let a = views(args@);
            if a.len() != 2 {
                r == Err::<Vec<u8>, CommandError>(CommandError::WrongArity)
            } else {
                match (a[0], a[1]) {
                    (Value::Bulk(id), Value::Bulk(offset)) => if id == encode_utf8("?"@) && offset
                        == encode_utf8("-1"@) {
                        r is Ok && r->Ok_0@ == full_resync_reply(*info)
                    } else {
                        r == Err::<Vec<u8>, CommandError>(CommandError::UnexpectedPsyncArgs)
                    },
                    _ => r == Err::<Vec<u8>, CommandError>(CommandError::InvalidArgument),
                }
            }
        }),
{
    if args.len() != 2 {
        return Err(CommandError::WrongArity);
    }
    assert(views(args@)[0] == args@[0]@);
    assert(views(args@)[1] == args@[1]@);
    let (id, offset) = match (&args[0], &args[1]) {
        (RespType::BulkString(id), RespType::BulkString(offset)) => (id, offset),
        _ => {
            return Err(CommandError::InvalidArgument);
        },
    };
    if !bytes_equal(id.as_slice(), "?".as_bytes()) || !bytes_equal(offset.as_slice(), "-1".as_bytes()) {
        return Err(CommandError::UnexpectedPsyncArgs);
    }
    let mut out: Vec<u8> = Vec::new();
    out.push(43);
    push_bytes(&mut out, "FULLRESYNC ".as_bytes());
    push_bytes(&mut out, info.master_replid.as_str().as_bytes());
    out.push(32);
    push_nat_text(&mut out, info.master_repl_offset);
    push_crlf(&mut out);
    let snapshot = empty_snapshot_bytes();
    push_snapshot_frame(&mut out, snapshot.as_slice());
    assert(out@ =~= full_resync_reply(*info));
    Ok(out)
}

/// Runs the command `name` (already lower case) with `args` and gives the bytes
/// of its reply.
pub fn command(
    info: &ServerInfo,
    data: &mut Data,
    now: u64,
    name: &[u8],
    args: Vec<RespType>,
) -> (r: Result<Vec<u8>, CommandError>)
    requires
        old(data).wf(),
    ensures
        final(data).wf(),
        outcome_holds(
            command_outcome(*info, old(data).view(), now, name@, views(args@)),
            r,
            old(data).view(),
            final(data).view(),
        ),
{
    if bytes_equal(name, "ping".as_bytes()) {
        if args.len() != 0 {
            return Err(CommandError::WrongArity);
        }
        let mut out: Vec<u8> = Vec::new();
        encode_into(&mut out, &RespType::SimpleString("PONG".to_string()));
        Ok(out)
    } else if bytes_equal(name, "echo".as_bytes()) {
        if args.len() != 1 {
            return Err(CommandError::WrongArity);
        }
        assert(views(args@)[0] == args@[0]@);
        match &args[0] {
            RespType::BulkString(_) => {
                let mut out: Vec<u8> = Vec::new();
                encode_into(&mut out, &args[0]);
                Ok(out)
            },
            _ => Err(CommandError::InvalidArgument),
        }
    } else if bytes_equal(name, "get".as_bytes()) {
        get_command(data, now, args)
    } else if bytes_equal(name, "set".as_bytes()) {
        set_command(data, now, args)
    } else if bytes_equal(name, "info".as_bytes()) {
        Ok(info_command(info))
    } else if bytes_equal(name, "command".as_bytes()) {
        let mut out: Vec<u8> = Vec::new();
        let empty = RespType::Array(Vec::new());
        assert(empty@ == Value::Array(Seq::empty())) by {
            assert(empty@->Array_0 =~= Seq::<Value>::empty());
        }
        encode_into(&mut out, &empty);
        Ok(out)
    } else if bytes_equal(name, "replconf".as_bytes()) {
        let mut out: Vec<u8> = Vec::new();
        encode_into(&mut out, &RespType::SimpleString("OK".to_string()));
        Ok(out)
    } else if bytes_equal(name, "psync".as_bytes()) {
        psync_command(info, args)
    } else {
        Err(CommandError::UnknownCommand)
    }
}

/// The command name, lower case, and the arguments that a request carries: a lone
/// string is a command without arguments, an array holds the name first.
pub open spec fn request_parts(v: Value) -> Option<(Seq<u8>, Seq<Value>)> {
    match v {
        Value::Simple(_) | Value::Bulk(_) => Some((str_bytes(lowered(v))->0, Seq::empty())),
        Value::Array(items) => if items.len() > 0 && str_bytes(items[0]) is Some {
            Some((str_bytes(lowered(items[0]))->0, items.drop_first()))
        } else {
            None
        },
        _ => None,
    }
}

/// Handles one decoded request and gives the bytes of its reply.
pub fn handle_request(info: &ServerInfo, data: &mut Data, now: u64, request: RespType) -> (r: Result<
    Vec<u8>,
    CommandError,
>)
    requires
        old(data).wf(),
    ensures
        final(data).wf(),
        match request_parts(request@) {
            Some((name, args)) => outcome_holds(
                command_outcome(*info, old(data).view(), now, name, args),
                r,
                old(data).view(),
                final(data).view(),
            ),
            None => r == Err::<Vec<u8>, CommandError>(CommandError::MalformedRequest)
                && final(data).view() == old(data).view(),
        },
{
    let mut request = request;
    match request {
        RespType::SimpleString(_) | RespType::BulkString(_) => {
            let name = match request.make_str_bytes_lowercase() {
                Ok(name) => name,
                Err(_) => {
                    return Err(CommandError::MalformedRequest);
                },
            };
            let args: Vec<RespType> = Vec::new();
            assert(views(args@) =~= Seq::<Value>::empty());
            command(info, data, now, name.as_slice(), args)
        },
        RespType::Array(mut items) => {
            let ghost vals = request@->Array_0;
            assert(vals =~= views(items@));
            if items.len() == 0 {
                return Err(CommandError::MalformedRequest);
            }
            proof {
                lemma_views_remove_first(items@);
            }
            let mut first = items.remove(0);
            assert(views(items@) =~= vals.drop_first());
            let name = match first.make_str_bytes_lowercase() {
                Ok(name) => name,
                Err(_) => {
                    return Err(CommandError::MalformedRequest);
                },
            };
            command(info, data, now, name.as_slice(), items)
        },
        _ => Err(CommandError::MalformedRequest),
    }
}

proof fn lemma_words_differ(a: Seq<char>, b: Seq<char>)
    requires
        a != b,
    ensures
        encode_utf8(a) != encode_utf8(b),
{
    encode_utf8_decode_utf8(a);
    encode_utf8_decode_utf8(b);
}

proof fn lemma_ascii_word(w: Seq<char>, bytes: Seq<u8>)
    requires
        is_ascii_chars(w),
        w.len() == bytes.len(),
        forall|i: int| 0 <= i < w.len() ==> w[i] as u8 == bytes[i],
    ensures
        encode_utf8(w) == bytes,
{
    is_ascii_chars_encode_utf8(w);
    assert(encode_utf8(w) =~= bytes);
}

/// The names `get` and `set` are not taken by the commands tested before them.
proof fn lemma_store_names()
    ensures
        encode_utf8("get"@) != encode_utf8("ping"@),
        encode_utf8("get"@) != encode_utf8("echo"@),
        encode_utf8("set"@) != encode_utf8("ping"@),
        encode_utf8("set"@) != encode_utf8("echo"@),
        encode_utf8("set"@) != encode_utf8("get"@),
{
    reveal_strlit("get");
    reveal_strlit("set");
    reveal_strlit("ping");
    reveal_strlit("echo");
    assert("get"@ != "ping"@) by {
        assert("get"@.len() != "ping"@.len());
    }
    assert("get"@ != "echo"@) by {
        assert("get"@.len() != "echo"@.len());
    }
    assert("set"@ != "ping"@) by {
        assert("set"@.len() != "ping"@.len());
    }
    assert("set"@ != "echo"@) by {
        assert("set"@.len() != "echo"@.len());
    }
    assert("set"@ != "get"@) by {
        assert("set"@[0] != "get"@[0]);
    }
    lemma_words_differ("get"@, "ping"@);
    lemma_words_differ("get"@, "echo"@);
    lemma_words_differ("set"@, "ping"@);
    lemma_words_differ("set"@, "echo"@);
    lemma_words_differ("set"@, "get"@);
}

/// `GET` of a key that the store does not hold replies null and changes nothing.
pub proof fn lemma_get_of_unset_key(
    info: ServerInfo,
    m: Map<Seq<u8>, (Seq<u8>, Option<u64>)>,
    now: u64,
    key: Seq<u8>,
)
    requires
        !m.contains_key(key),
    ensures
        command_outcome(info, m, now, encode_utf8("get"@), seq![Value::Bulk(key)])
            == Outcome::Reply(encode(Value::Null), m),
{
    lemma_store_names();
}

/// `SET k v` without options stores `v` under `k` with no expiry and replies `OK`.
pub proof fn lemma_plain_set(
    info: ServerInfo,
    m: Map<Seq<u8>, (Seq<u8>, Option<u64>)>,
    now: u64,
    key: Seq<u8>,
    value: Seq<u8>,
)
    ensures
        command_outcome(info, m, now, encode_utf8("set"@), seq![Value::Bulk(key), Value::Bulk(value)])
            == Outcome::Reply(encode(Value::Simple("OK"@)), m.insert(key, (value, None))),
{
    lemma_store_names();
    let args = seq![Value::Bulk(key), Value::Bulk(value)];
    assert(args.subrange(2, 2) =~= Seq::<Value>::empty());
}

/// After `SET k v`, `GET k` replies `v` at any later time and changes nothing.
pub proof fn lemma_get_after_set(
    info: ServerInfo,
    m: Map<Seq<u8>, (Seq<u8>, Option<u64>)>,
    set_at: u64,
    get_at: u64,
    key: Seq<u8>,
    value: Seq<u8>,
)
    ensures
        ({
            let after_set = m.insert(key, (value, None));
            &&& command_outcome(
                info,
                m,
                set_at,
                encode_utf8("set"@),
                seq![Value::Bulk(key), Value::Bulk(value)],
            ) == Outcome::Reply(encode(Value::Simple("OK"@)), after_set)
            &&& command_outcome(info, after_set, get_at, encode_utf8("get"@), seq![Value::Bulk(key)])
                == Outcome::Reply(encode(Value::Bulk(value)), after_set)
        }),
{
    lemma_plain_set(info, m, set_at, key, value);
    lemma_store_names();
}

/// After `SET k v PX 0`, `GET k` at the same time or later replies null, and the
/// store no longer holds `k`.
pub proof fn lemma_get_after_zero_expiry(
    info: ServerInfo,
    m: Map<Seq<u8>, (Seq<u8>, Option<u64>)>,
    set_at: u64,
    get_at: u64,
    key: Seq<u8>,
    value: Seq<u8>,
)
    requires
        set_at <= get_at,
    ensures
        ({
            let after_set = m.insert(key, (value, Some(set_at)));
            &&& command_outcome(
                info,
                m,
                set_at,
                encode_utf8("set"@),
                seq![
                    Value::Bulk(key),
                    Value::Bulk(value),
                    Value::Bulk(encode_utf8("PX"@)),
                    Value::Bulk(encode_utf8("0"@)),
                ],
            ) == Outcome::Reply(encode(Value::Simple("OK"@)), after_set)
            &&& command_outcome(info, after_set, get_at, encode_utf8("get"@), seq![Value::Bulk(key)])
                == Outcome::Reply(encode(Value::Null), after_set.remove(key))
            &&& !after_set.remove(key).contains_key(key)
        }),
{
    lemma_store_names();
    lemma_px_zero();
    let args = seq![
        Value::Bulk(key),
        Value::Bulk(value),
        Value::Bulk(encode_utf8("PX"@)),
        Value::Bulk(encode_utf8("0"@)),
    ];
    assert(args.subrange(2, 4) =~= seq![Value::Bulk(encode_utf8("PX"@)), Value::Bulk(encode_utf8("0"@))]);
}

proof fn lemma_px_zero()
    ensures
        set_ttl(seq![Value::Bulk(encode_utf8("PX"@)), Value::Bulk(encode_utf8("0"@))], None)
            == Ok::<Option<u64>, CommandError>(Some(0u64)),
{
    reveal_strlit("PX");
    reveal_strlit("px");
    reveal_strlit("0");
    lemma_ascii_word("PX"@, seq![80u8, 88u8]);
    lemma_ascii_word("px"@, seq![112u8, 120u8]);
    lemma_ascii_word("0"@, seq![48u8]);
    let opts = seq![Value::Bulk(encode_utf8("PX"@)), Value::Bulk(encode_utf8("0"@))];
    assert(crate::resp::lower_bytes(seq![80u8, 88u8]) =~= seq![112u8, 120u8]);
    assert(seq![48u8].drop_last() =~= Seq::<u8>::empty());
    assert(crate::decimal::digits_value(Seq::<u8>::empty()) == 0);
    assert(crate::decimal::digits_value(seq![48u8]) == 0);
    assert(crate::decimal::signed_value(seq![48u8]) == Some(0int));
    assert(opts.subrange(2, 2) =~= Seq::<Value>::empty());
    assert(int_of(opts[1]) == Some(0int));
    assert(set_ttl(Seq::<Value>::empty(), Some(0u64)) == Ok::<Option<u64>, CommandError>(Some(0u64)));
    assert(lower_bytes(encode_utf8("PX"@)) == encode_utf8("px"@));
}


/// `SET k v1`, then `SET k v2`: the second `SET` finds `v1` as the value it
/// replaces, and `GET k` then replies `v2`.
pub proof fn lemma_overwrite(
    info: ServerInfo,
    m: Map<Seq<u8>, (Seq<u8>, Option<u64>)>,
    now: u64,
    key: Seq<u8>,
    first: Seq<u8>,
    second: Seq<u8>,
)
    ensures
        ({
            let m1 = m.insert(key, (first, None));
            let m2 = m1.insert(key, (second, None));
            &&& command_outcome(
                info,
                m,
                now,
                encode_utf8("set"@),
                seq![Value::Bulk(key), Value::Bulk(first)],
            ) == Outcome::Reply(encode(Value::Simple("OK"@)), m1)
            &&& live_value(m1, key, now) == Some(first)
            &&& command_outcome(
                info,
                m1,
                now,
                encode_utf8("set"@),
                seq![Value::Bulk(key), Value::Bulk(second)],
            ) == Outcome::Reply(encode(Value::Simple("OK"@)), m2)
            &&& command_outcome(info, m2, now, encode_utf8("get"@), seq![Value::Bulk(key)])
                == Outcome::Reply(encode(Value::Bulk(second)), m2)
        }),
{
    lemma_plain_set(info, m, now, key, first);
    lemma_get_after_set(info, m.insert(key, (first, None)), now, now, key, second);
}

/// The store after the plain `SET`s of `values` under `key`, one after another in
/// the order the store's lock let them through.
pub open spec fn after_sets(
    info: ServerInfo,
    m: Map<Seq<u8>, (Seq<u8>, Option<u64>)>,
    now: u64,
    key: Seq<u8>,
    values: Seq<Seq<u8>>,
) -> Map<Seq<u8>, (Seq<u8>, Option<u64>)>
    decreases values.len(),
{
    if values.len() == 0 {
        m
    } else {
        let before = after_sets(info, m, now, key, values.drop_last());
        match command_outcome(
            info,
            before,
            now,
            encode_utf8("set"@),
            seq![Value::Bulk(key), Value::Bulk(values.last())],
        ) {
            Outcome::Reply(_, after) => after,
            Outcome::Fail(_) => before,
        }
    }
}

/// However the `SET`s of many connections on one key interleave, `GET` afterwards
/// replies one of the values written, whole.
pub proof fn lemma_interleaved_sets(
    info: ServerInfo,
    m: Map<Seq<u8>, (Seq<u8>, Option<u64>)>,
    now: u64,
    key: Seq<u8>,
    values: Seq<Seq<u8>>,
)
    requires
        values.len() > 0,
    ensures
        ({
            let end = after_sets(info, m, now, key, values);
            exists|i: int|
                0 <= i < values.len() && command_outcome(
                    info,
                    end,
                    now,
                    encode_utf8("get"@),
                    seq![Value::Bulk(key)],
                ) == Outcome::Reply(encode(Value::Bulk(#[trigger] values[i])), end)
        }),
{
    let before = after_sets(info, m, now, key, values.drop_last());
    lemma_get_after_set(info, before, now, now, key, values.last());
    let i = values.len() - 1;
    assert(values[i] == values.last());
}

} // verus!
