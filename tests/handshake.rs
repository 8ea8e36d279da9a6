use redis_starter_rust::handshake::parse_full_resync;
use redis_starter_rust::{handshake_next, handshake_start, HandshakeError, HandshakeState, RespType, RespWriter};

fn bulk(s: &str) -> RespType {
    RespType::BulkString(s.as_bytes().to_vec())
}

fn simple(s: &str) -> RespType {
    RespType::SimpleString(s.to_string())
}

fn wire(item: RespType) -> Vec<u8> {
    let mut w = RespWriter::new();
    w.write_item(item);
    w.take_output()
}

#[test]
fn full_handshake_sequence() {
    let (state, ping) = handshake_start();
    assert_eq!(wire(ping), b"*1\r\n$4\r\nping\r\n".to_vec());
    let (state, req) = handshake_next(&state, 6380, Some(simple("PONG"))).unwrap();
    assert_eq!(
        req,
        Some(RespType::Array(vec![bulk("REPLCONF"), bulk("listening-port"), bulk("6380")]))
    );
    let (state, req) = handshake_next(&state, 6380, Some(simple("OK"))).unwrap();
    assert_eq!(req, Some(RespType::Array(vec![bulk("REPLCONF"), bulk("capa"), bulk("psync2")])));
    let (state, req) = handshake_next(&state, 6380, Some(simple("OK"))).unwrap();
    assert_eq!(wire(req.unwrap()), b"*3\r\n$5\r\nPSYNC\r\n$1\r\n?\r\n$2\r\n-1\r\n".to_vec());
    let (state, req) =
        handshake_next(&state, 6380, Some(simple("FULLRESYNC 8371b4fb1155b71f4a04d3e1bc3e18c4a990 0")))
            .unwrap();
    assert_eq!(req, None);
    match state {
        HandshakeState::ResyncAccepted { master_id } => {
            assert_eq!(master_id, "8371b4fb1155b71f4a04d3e1bc3e18c4a990")
        }
        other => panic!("unexpected state {:?}", other),
    }
}

#[test]
fn handshake_failures() {
    let (state, _) = handshake_start();
    assert_eq!(handshake_next(&state, 1, None).unwrap_err(), HandshakeError::StreamClosed);
    assert_eq!(
        handshake_next(&state, 1, Some(simple("OK"))).unwrap_err(),
        HandshakeError::UnexpectedReply
    );
    assert_eq!(
        handshake_next(&state, 1, Some(bulk("PONG"))).unwrap_err(),
        HandshakeError::UnexpectedReply
    );
    let s = HandshakeState::AwaitPortAck;
    assert_eq!(
        handshake_next(&s, 1, Some(RespType::SimpleError("ERR".to_string()))).unwrap_err(),
        HandshakeError::UnexpectedReply
    );
    let s = HandshakeState::AwaitFullResync;
    assert_eq!(
        handshake_next(&s, 1, Some(simple("CONTINUE"))).unwrap_err(),
        HandshakeError::UnexpectedReply
    );
    assert_eq!(
        handshake_next(&s, 1, Some(simple("FULLRESYNC abc"))).unwrap_err(),
        HandshakeError::MalformedFullResync
    );
    assert_eq!(
        handshake_next(&s, 1, Some(simple("FULLRESYNC abc 12"))).unwrap_err(),
        HandshakeError::NonZeroOffset
    );
    let done = HandshakeState::ResyncAccepted { master_id: "x".to_string() };
    assert_eq!(
        handshake_next(&done, 1, Some(simple("PONG"))).unwrap_err(),
        HandshakeError::UnexpectedReply
    );
}

#[test]
fn parses_full_resync_line() {
    assert_eq!(parse_full_resync("FULLRESYNC id-1 0"), Ok("id-1".to_string()));
    assert_eq!(parse_full_resync("FULLRESYNC  0"), Ok("".to_string()));
    assert_eq!(parse_full_resync("FULLRESYNC a 0 0"), Err(HandshakeError::NonZeroOffset));
    assert_eq!(parse_full_resync("FULL"), Err(HandshakeError::UnexpectedReply));
}
