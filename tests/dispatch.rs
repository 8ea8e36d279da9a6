use redis_starter_rust::{
    command, handle_request, CommandError, Data, ReplicationMode, RespType, ServerInfo,
};

fn bulk(s: &str) -> RespType {
    RespType::BulkString(s.as_bytes().to_vec())
}

fn master() -> ServerInfo {
    ServerInfo::new(ReplicationMode::Master)
}

fn run(data: &mut Data, now: u64, name: &str, args: Vec<RespType>) -> Result<Vec<u8>, CommandError> {
    command(&master(), data, now, name.as_bytes(), args)
}

#[test]
fn ping_replies_pong() {
    let mut d = Data::new();
    assert_eq!(run(&mut d, 0, "ping", vec![]), Ok(b"+PONG\r\n".to_vec()));
    assert_eq!(run(&mut d, 0, "ping", vec![bulk("x")]), Err(CommandError::WrongArity));
}

#[test]
fn echo_hello_exact_bytes() {
    let mut d = Data::new();
    assert_eq!(run(&mut d, 0, "echo", vec![bulk("hello")]), Ok(b"$5\r\nhello\r\n".to_vec()));
    assert_eq!(run(&mut d, 0, "echo", vec![]), Err(CommandError::WrongArity));
    assert_eq!(
        run(&mut d, 0, "echo", vec![RespType::Integer(1)]),
        Err(CommandError::InvalidArgument)
    );
}

#[test]
fn get_of_unset_key_is_null() {
    let mut d = Data::new();
    assert_eq!(run(&mut d, 5, "get", vec![bulk("nope")]), Ok(b"$-1\r\n".to_vec()));
    assert_eq!(run(&mut d, 5, "get", vec![]), Err(CommandError::WrongArity));
    assert_eq!(
        run(&mut d, 5, "get", vec![RespType::SimpleString("k".to_string())]),
        Err(CommandError::InvalidArgument)
    );
}

#[test]
fn set_then_get_returns_value() {
    let mut d = Data::new();
    assert_eq!(run(&mut d, 10, "set", vec![bulk("k"), bulk("v")]), Ok(b"+OK\r\n".to_vec()));
    assert_eq!(run(&mut d, 10, "get", vec![bulk("k")]), Ok(b"$1\r\nv\r\n".to_vec()));
    assert_eq!(run(&mut d, 1_000_000, "get", vec![bulk("k")]), Ok(b"$1\r\nv\r\n".to_vec()));
}

#[test]
fn set_px_zero_expires_and_removes() {
    let mut d = Data::new();
    assert_eq!(
        run(&mut d, 100, "set", vec![bulk("k"), bulk("v"), bulk("PX"), bulk("0")]),
        Ok(b"+OK\r\n".to_vec())
    );
    assert!(d.holds_key(b"k"));
    assert_eq!(run(&mut d, 101, "get", vec![bulk("k")]), Ok(b"$-1\r\n".to_vec()));
    assert!(!d.holds_key(b"k"));
}

#[test]
fn set_px_keeps_value_until_deadline() {
    let mut d = Data::new();
    run(&mut d, 1000, "set", vec![bulk("k"), bulk("v"), bulk("px"), bulk("100")]).unwrap();
    assert_eq!(run(&mut d, 1099, "get", vec![bulk("k")]), Ok(b"$1\r\nv\r\n".to_vec()));
    assert_eq!(run(&mut d, 1100, "get", vec![bulk("k")]), Ok(b"$-1\r\n".to_vec()));
}

#[test]
fn later_px_wins_and_plain_set_drops_expiry() {
    let mut d = Data::new();
    run(
        &mut d,
        0,
        "set",
        vec![bulk("k"), bulk("v"), bulk("px"), bulk("5"), bulk("PX"), bulk("50")],
    )
    .unwrap();
    assert_eq!(run(&mut d, 10, "get", vec![bulk("k")]), Ok(b"$1\r\nv\r\n".to_vec()));
    run(&mut d, 20, "set", vec![bulk("k"), bulk("w")]).unwrap();
    assert_eq!(run(&mut d, 1000, "get", vec![bulk("k")]), Ok(b"$1\r\nw\r\n".to_vec()));
}

#[test]
fn overwrite_returns_old_value() {
    let mut d = Data::new();
    assert_eq!(d.set(b"k".to_vec(), b"v1".to_vec(), None, 0), None);
    assert_eq!(d.set(b"k".to_vec(), b"v2".to_vec(), None, 0), Some(b"v1".to_vec()));
    assert_eq!(run(&mut d, 0, "get", vec![bulk("k")]), Ok(b"$2\r\nv2\r\n".to_vec()));
}

#[test]
fn set_validation_failures() {
    let mut d = Data::new();
    assert_eq!(run(&mut d, 0, "set", vec![bulk("k")]), Err(CommandError::WrongArity));
    assert_eq!(
        run(&mut d, 0, "set", vec![RespType::Integer(1), bulk("v")]),
        Err(CommandError::InvalidArgument)
    );
    assert_eq!(
        run(&mut d, 0, "set", vec![bulk("k"), RespType::NullBulkString]),
        Err(CommandError::InvalidArgument)
    );
    assert_eq!(
        run(&mut d, 0, "set", vec![bulk("k"), bulk("v"), bulk("ex"), bulk("1")]),
        Err(CommandError::UnknownOption)
    );
    assert_eq!(
        run(&mut d, 0, "set", vec![bulk("k"), bulk("v"), RespType::Integer(3)]),
        Err(CommandError::InvalidArgument)
    );
    assert_eq!(
        run(&mut d, 0, "set", vec![bulk("k"), bulk("v"), RespType::SimpleString("px".to_string()), bulk("5")]),
        Err(CommandError::InvalidArgument)
    );
    assert_eq!(
        run(&mut d, 0, "set", vec![bulk("k"), bulk("v"), bulk("px"), RespType::Integer(5)]),
        Err(CommandError::InvalidArgument)
    );
    assert_eq!(
        run(&mut d, 0, "set", vec![bulk("k"), bulk("v"), bulk("px")]),
        Err(CommandError::MissingOptionValue)
    );
    assert_eq!(
        run(&mut d, 0, "set", vec![bulk("k"), bulk("v"), bulk("px"), bulk("soon")]),
        Err(CommandError::NotAnInteger)
    );
    assert_eq!(
        run(&mut d, 0, "set", vec![bulk("k"), bulk("v"), bulk("px"), bulk("-1")]),
        Err(CommandError::NegativeExpiry)
    );
    assert_eq!(
        run(&mut d, u64::MAX, "set", vec![bulk("k"), bulk("v"), bulk("px"), bulk("1")]),
        Err(CommandError::ExpiryOutOfRange)
    );
    assert!(!d.holds_key(b"k"));
}

#[test]
fn info_reports_role() {
    let mut d = Data::new();
    let text = "# Replication\nrole:master\nmaster_replid:8371b4fb1155b71f4a04d3e1bc3e18c4a990\nmaster_repl_offset:0";
    let mut expected = format!("${}\r\n", text.len()).into_bytes();
    expected.extend_from_slice(text.as_bytes());
    expected.extend_from_slice(b"\r\n");
    assert_eq!(run(&mut d, 0, "info", vec![bulk("replication")]), Ok(expected));
    let slave = ServerInfo::new(ReplicationMode::Slave { host: "127.0.0.1".to_string(), port: 6379 });
    let reply = command(&slave, &mut d, 0, b"info", vec![]).unwrap();
    assert!(String::from_utf8(reply).unwrap().contains("\nrole:slave\n"));
}

#[test]
fn command_and_replconf() {
    let mut d = Data::new();
    assert_eq!(run(&mut d, 0, "command", vec![bulk("docs")]), Ok(b"*0\r\n".to_vec()));
    assert_eq!(
        run(&mut d, 0, "replconf", vec![bulk("listening-port"), bulk("6380")]),
        Ok(b"+OK\r\n".to_vec())
    );
}

#[test]
fn psync_sends_full_resync_and_snapshot() {
    let mut d = Data::new();
    let reply = run(&mut d, 0, "psync", vec![bulk("?"), bulk("-1")]).unwrap();
    let head = b"+FULLRESYNC ";
    assert_eq!(&reply[..head.len()], head);
    let id = &reply[head.len()..head.len() + 36];
    assert!(id.iter().all(|b| b.is_ascii_hexdigit()));
    let rest = &reply[head.len() + 36..];
    assert_eq!(&rest[..5], b" 0\r\n$");
    let rest = &rest[5..];
    let crlf = rest.windows(2).position(|w| w == b"\r\n").unwrap();
    let n: usize = std::str::from_utf8(&rest[..crlf]).unwrap().parse().unwrap();
    let payload = &rest[crlf + 2..];
    assert_eq!(payload.len(), n);
    assert_eq!(n, 88);
    assert_eq!(&payload[..9], b"REDIS0011");
}

#[test]
fn psync_validation_failures() {
    let mut d = Data::new();
    assert_eq!(run(&mut d, 0, "psync", vec![bulk("?")]), Err(CommandError::WrongArity));
    assert_eq!(
        run(&mut d, 0, "psync", vec![bulk("abc"), bulk("-1")]),
        Err(CommandError::UnexpectedPsyncArgs)
    );
    assert_eq!(
        run(&mut d, 0, "psync", vec![bulk("?"), RespType::Integer(-1)]),
        Err(CommandError::InvalidArgument)
    );
}

#[test]
fn unknown_command_fails() {
    let mut d = Data::new();
    assert_eq!(run(&mut d, 0, "flushall", vec![]), Err(CommandError::UnknownCommand));
    assert_eq!(run(&mut d, 0, "PING", vec![]), Err(CommandError::UnknownCommand));
}

#[test]
fn requests_are_case_folded() {
    let info = master();
    let mut d = Data::new();
    let req = RespType::Array(vec![bulk("EcHo"), bulk("Hi")]);
    assert_eq!(handle_request(&info, &mut d, 0, req), Ok(b"$2\r\nHi\r\n".to_vec()));
    let req = RespType::SimpleString("PING".to_string());
    assert_eq!(handle_request(&info, &mut d, 0, req), Ok(b"+PONG\r\n".to_vec()));
    let req = bulk("Ping");
    assert_eq!(handle_request(&info, &mut d, 0, req), Ok(b"+PONG\r\n".to_vec()));
    let req = RespType::Array(vec![RespType::SimpleString("SET".to_string()), bulk("k"), bulk("v")]);
    assert_eq!(handle_request(&info, &mut d, 0, req), Ok(b"+OK\r\n".to_vec()));
}

#[test]
fn malformed_requests_fail() {
    let info = master();
    let mut d = Data::new();
    for req in vec![
        RespType::SimpleError("ERR".to_string()),
        RespType::Integer(3),
        RespType::NullBulkString,
        RespType::Array(vec![]),
        RespType::Array(vec![RespType::Array(vec![bulk("ping")])]),
        RespType::Array(vec![RespType::Integer(1)]),
    ] {
        assert_eq!(handle_request(&info, &mut d, 0, req), Err(CommandError::MalformedRequest));
    }
}

#[test]
fn interleaved_sets_leave_one_written_value() {
    let info = master();
    let shared = std::sync::Mutex::new(Data::new());
    let connections: Vec<Vec<&str>> = vec![
        vec!["alpha-1", "alpha-2", "alpha-3"],
        vec!["beta-1", "beta-2"],
        vec!["gamma-1", "gamma-2", "gamma-3", "gamma-4"],
    ];
    let mut cursors = vec![0usize; connections.len()];
    let mut turn = 0usize;
    let mut written: Vec<&str> = Vec::new();
    while cursors.iter().zip(&connections).any(|(c, v)| *c < v.len()) {
        let who = turn % connections.len();
        turn = turn * 7 + 3;
        if cursors[who] >= connections[who].len() {
            continue;
        }
        let value = connections[who][cursors[who]];
        cursors[who] += 1;
        let mut data = shared.lock().unwrap();
        let req = RespType::Array(vec![bulk("SET"), bulk("shared"), bulk(value)]);
        assert_eq!(handle_request(&info, &mut data, 0, req), Ok(b"+OK\r\n".to_vec()));
        written.push(value);
    }
    let mut data = shared.lock().unwrap();
    let reply = command(&info, &mut data, 0, b"get", vec![bulk("shared")]).unwrap();
    let last = written.last().unwrap();
    assert_eq!(reply, format!("${}\r\n{}\r\n", last.len(), last).into_bytes());
    assert!(written.iter().any(|w| reply == format!("${}\r\n{}\r\n", w.len(), w).into_bytes()));
}
