use redis_starter_rust::{parse_item, DecodeError, RespReader, RespType, RespWriter, ValueError};

fn encode(item: RespType) -> Vec<u8> {
    let mut w = RespWriter::new();
    w.write_item(item);
    w.take_output()
}

fn decode_all(bytes: &[u8]) -> Result<Option<(RespType, usize)>, DecodeError> {
    parse_item(bytes, 0)
}

fn bulk(s: &str) -> RespType {
    RespType::BulkString(s.as_bytes().to_vec())
}

#[test]
fn encodes_simple_string() {
    assert_eq!(encode(RespType::SimpleString("OK".to_string())), b"+OK\r\n".to_vec());
}

#[test]
fn encodes_simple_error() {
    assert_eq!(encode(RespType::SimpleError("ERR bad".to_string())), b"-ERR bad\r\n".to_vec());
}

#[test]
fn encodes_integers() {
    assert_eq!(encode(RespType::Integer(0)), b":0\r\n".to_vec());
    assert_eq!(encode(RespType::Integer(1234)), b":1234\r\n".to_vec());
    assert_eq!(encode(RespType::Integer(-42)), b":-42\r\n".to_vec());
    assert_eq!(encode(RespType::Integer(i64::MIN)), b":-9223372036854775808\r\n".to_vec());
    assert_eq!(encode(RespType::Integer(i64::MAX)), b":9223372036854775807\r\n".to_vec());
}

#[test]
fn encodes_bulk_and_null() {
    assert_eq!(encode(bulk("hello")), b"$5\r\nhello\r\n".to_vec());
    assert_eq!(encode(bulk("")), b"$0\r\n\r\n".to_vec());
    assert_eq!(encode(RespType::NullBulkString), b"$-1\r\n".to_vec());
}

#[test]
fn encodes_nested_arrays() {
    let item = RespType::Array(vec![
        bulk("a"),
        RespType::Array(vec![RespType::Integer(7), RespType::Array(vec![])]),
    ]);
    assert_eq!(encode(item), b"*2\r\n$1\r\na\r\n*2\r\n:7\r\n*0\r\n".to_vec());
}

#[test]
fn writes_snapshot_frame_without_line_end() {
    let mut w = RespWriter::new();
    w.write_rdb_file(b"abc");
    assert_eq!(w.take_output(), b"$3\r\nabc".to_vec());
    assert_eq!(w.take_output(), Vec::<u8>::new());
}

#[test]
fn decodes_each_kind() {
    assert_eq!(
        decode_all(b"+PONG\r\n"),
        Ok(Some((RespType::SimpleString("PONG".to_string()), 7)))
    );
    assert_eq!(
        decode_all(b"-oops\r\n"),
        Ok(Some((RespType::SimpleError("oops".to_string()), 7)))
    );
    assert_eq!(decode_all(b":-17\r\n"), Ok(Some((RespType::Integer(-17), 6))));
    assert_eq!(decode_all(b":+5\r\n"), Ok(Some((RespType::Integer(5), 5))));
    assert_eq!(decode_all(b"$3\r\nfoo\r\n"), Ok(Some((bulk("foo"), 9))));
    assert_eq!(
        decode_all(b"*2\r\n$4\r\necho\r\n$2\r\nhi\r\n"),
        Ok(Some((RespType::Array(vec![bulk("echo"), bulk("hi")]), 22)))
    );
}

#[test]
fn decodes_utf8_text() {
    assert_eq!(
        decode_all("+héllo\r\n".as_bytes()),
        Ok(Some((RespType::SimpleString("héllo".to_string()), 9)))
    );
    assert_eq!(decode_all(b"+\xff\xfe\r\n"), Err(DecodeError::BadText));
}

#[test]
fn decodes_bulk_with_line_breaks_inside() {
    assert_eq!(decode_all(b"$4\r\na\r\nb\r\n"), Ok(Some((bulk("a\r\nb"), 10))));
}

#[test]
fn decode_asks_for_more_bytes() {
    assert_eq!(decode_all(b""), Ok(None));
    assert_eq!(decode_all(b"+PON"), Ok(None));
    assert_eq!(decode_all(b"$5\r\nhel"), Ok(None));
    assert_eq!(decode_all(b"*2\r\n$1\r\na\r\n"), Ok(None));
}

#[test]
fn decode_errors() {
    assert_eq!(decode_all(b"!x\r\n"), Err(DecodeError::UnknownTag));
    assert_eq!(decode_all(b"$-1\r\n"), Err(DecodeError::BadLength));
    assert_eq!(decode_all(b"*x\r\n"), Err(DecodeError::BadLength));
    assert_eq!(decode_all(b":12a\r\n"), Err(DecodeError::BadInteger));
    assert_eq!(decode_all(b":9223372036854775808\r\n"), Err(DecodeError::BadInteger));
    assert_eq!(decode_all(b"$2\r\nabcd"), Err(DecodeError::MissingCrlf));
}

#[test]
fn round_trip_nested() {
    let make = || {
        RespType::Array(vec![
            RespType::SimpleString("hello world".to_string()),
            RespType::SimpleError("ERR x".to_string()),
            RespType::Integer(-9),
            bulk("bin\r\nary"),
            RespType::Array(vec![RespType::Array(vec![bulk("deep")]), RespType::Array(vec![])]),
        ])
    };
    let bytes = encode(make());
    let mut with_rest = bytes.clone();
    with_rest.extend_from_slice(b"+next\r\n");
    assert_eq!(parse_item(&with_rest, 0), Ok(Some((make(), bytes.len()))));
}

#[test]
fn reader_takes_values_in_turn() {
    let mut r = RespReader::new();
    r.feed(b"+OK\r\n:1");
    assert_eq!(r.read_item(), Ok(Some(RespType::SimpleString("OK".to_string()))));
    assert_eq!(r.buffered(), 2);
    assert_eq!(r.read_item(), Ok(None));
    r.feed(b"\r\n");
    assert_eq!(r.read_item(), Ok(Some(RespType::Integer(1))));
    assert_eq!(r.buffered(), 0);
    r.feed(b"?\r\n");
    assert_eq!(r.read_item(), Err(DecodeError::UnknownTag));
    assert_eq!(r.buffered(), 3);
}

#[test]
fn value_accessors() {
    assert_eq!(RespType::Integer(3).first_byte(), b':');
    assert_eq!(RespType::NullBulkString.first_byte(), b'$');
    assert_eq!(RespType::Array(vec![]).first_byte(), b'*');
    assert_eq!(bulk("ab").as_str_bytes(), Ok(&b"ab"[..]));
    assert_eq!(RespType::SimpleString("xy".to_string()).as_str_bytes(), Ok(&b"xy"[..]));
    assert_eq!(RespType::Integer(1).as_str_bytes(), Err(ValueError::NotAString));
    assert_eq!(RespType::Integer(-3).as_int(), Ok(-3));
    assert_eq!(bulk("250").as_int(), Ok(250));
    assert_eq!(RespType::SimpleString("-8".to_string()).as_int(), Ok(-8));
    assert_eq!(bulk("2x").as_int(), Err(ValueError::NotAnInteger));
    assert_eq!(RespType::NullBulkString.as_int(), Err(ValueError::NotAnInteger));
}

#[test]
fn lowercases_strings_in_place() {
    let mut s = RespType::SimpleString("PiNG-É".to_string());
    assert_eq!(s.make_str_bytes_lowercase(), Ok("ping-É".as_bytes().to_vec()));
    assert_eq!(s, RespType::SimpleString("ping-É".to_string()));
    let mut b = bulk("SeT");
    assert_eq!(b.make_str_bytes_lowercase(), Ok(b"set".to_vec()));
    assert_eq!(b, bulk("set"));
    let mut i = RespType::Integer(4);
    assert_eq!(i.make_str_bytes_lowercase(), Err(ValueError::NotAString));
}

#[test]
fn builds_bulk_strings() {
    assert_eq!(RespType::bulk_string_from_bytes(b"raw"), bulk("raw"));
    assert_eq!(RespType::bulk_string_from_string("txt".to_string()), bulk("txt"));
}
