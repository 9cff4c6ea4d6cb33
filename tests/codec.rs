use resp_client::{RespError, RespReader, RespValue, RespWriter};

fn encoded(v: &RespValue) -> Vec<u8> {
    let mut w = RespWriter::new(Vec::new());
    w.write(v).unwrap();
    w.into_inner()
}

fn decoded(bytes: &[u8]) -> Result<RespValue, RespError> {
    RespReader::new(bytes.to_vec()).read()
}

fn parse_failure(bytes: &[u8]) -> String {
    match decoded(bytes) {
        Err(RespError::ParseFailed(m)) => m,
        other => panic!("expected a parse failure, got {:?}", other),
    }
}

#[test]
fn round_trip_of_each_variant() {
    let values = vec![
        RespValue::Int(0),
        RespValue::Int(-42),
        RespValue::Int(i64::MAX),
        RespValue::Int(i64::MIN),
        RespValue::NilBulk,
        RespValue::NilArray,
        RespValue::Bulk(Vec::new()),
        RespValue::Bulk(vec![0, 255, 13, 10, 36]),
        RespValue::Error(b"ERR wrong type".to_vec()),
        RespValue::Array(Vec::new()),
    ];
    for v in values {
        let bytes = encoded(&v);
        assert_eq!(decoded(&bytes).unwrap(), v);
    }
}

#[test]
fn round_trip_of_nested_arrays() {
    let v = RespValue::Array(vec![
        RespValue::Array(vec![
            RespValue::Array(vec![
                RespValue::Int(7),
                RespValue::Bulk(b"deep".to_vec()),
                RespValue::NilArray,
            ]),
            RespValue::NilBulk,
        ]),
        RespValue::Error(b"E".to_vec()),
    ]);
    let bytes = encoded(&v);
    let mut r = RespReader::new(bytes);
    assert_eq!(r.read().unwrap(), v);
    assert_eq!(r.read(), Err(RespError::ParseFailed(format!("unexpected end of input"))));
}

#[test]
fn reads_values_one_after_another() {
    let mut r = RespReader::new(b":1\r\n+two\r\n$5\r\nthree\r\n".to_vec());
    assert_eq!(r.read().unwrap(), RespValue::Int(1));
    assert_eq!(r.read().unwrap(), RespValue::Bulk(b"two".to_vec()));
    assert_eq!(r.read().unwrap(), RespValue::Bulk(b"three".to_vec()));
}

#[test]
fn nil_and_empty_forms() {
    assert_eq!(decoded(b"$-1\r\n").unwrap(), RespValue::NilBulk);
    assert_eq!(decoded(b"*-1\r\n").unwrap(), RespValue::NilArray);
    assert_eq!(decoded(b"*0\r\n").unwrap(), RespValue::Array(Vec::new()));
    assert_eq!(decoded(b"$0\r\n\r\n").unwrap(), RespValue::Bulk(Vec::new()));
}

#[test]
fn status_and_error_lines() {
    assert_eq!(decoded(b"+OK\r\n").unwrap(), RespValue::Bulk(b"OK".to_vec()));
    assert_eq!(
        decoded(b"-ERR Bad Request\r\n").unwrap(),
        RespValue::Error(b"ERR Bad Request".to_vec())
    );
}

#[test]
fn array_with_nil_element() {
    let v = decoded(b"*3\r\n$3\r\nfoo\r\n$-1\r\n$3\r\nbar\r\n").unwrap();
    assert_eq!(
        v,
        RespValue::Array(vec![
            RespValue::Bulk(b"foo".to_vec()),
            RespValue::NilBulk,
            RespValue::Bulk(b"bar".to_vec()),
        ])
    );
}

#[test]
fn integers_at_the_edges() {
    assert_eq!(decoded(b":9223372036854775807\r\n").unwrap(), RespValue::Int(i64::MAX));
    assert_eq!(decoded(b":-9223372036854775808\r\n").unwrap(), RespValue::Int(i64::MIN));
    assert_eq!(decoded(b":+5\r\n").unwrap(), RespValue::Int(5));
    assert_eq!(decoded(b":-0\r\n").unwrap(), RespValue::Int(0));
    assert_eq!(parse_failure(b":9223372036854775808\r\n"), "parse int failed");
    assert_eq!(parse_failure(b":-9223372036854775809\r\n"), "parse int failed");
    assert_eq!(parse_failure(b":99999999999999999999x\r\n"), "parse int failed");
}

#[test]
fn each_parse_failure() {
    assert_eq!(parse_failure(b"blah\r\n"), "unexpected token: b");
    assert_eq!(parse_failure(b"+OK\n"), "line not ends with CRLF");
    assert_eq!(parse_failure(b"\n"), "line not ends with CRLF");
    assert_eq!(parse_failure(b"+OK"), "unexpected end of input");
    assert_eq!(parse_failure(b""), "unexpected end of input");
    assert_eq!(parse_failure(b"\r\n"), "empty line");
    assert_eq!(parse_failure(b":\r\n"), "malformed integer");
    assert_eq!(parse_failure(b"$\r\n"), "malformed integer");
    assert_eq!(parse_failure(b":12a\r\n"), "parse int failed");
    assert_eq!(parse_failure(b": 1\r\n"), "parse int failed");
    assert_eq!(parse_failure(b":-\r\n"), "parse int failed");
    assert_eq!(parse_failure(b"$-2\r\n"), "malformed length");
    assert_eq!(parse_failure(b"*-5\r\n"), "malformed length");
    assert_eq!(parse_failure(b"$3\r\nfoobar\r\n"), "bad bulk string format");
    assert_eq!(parse_failure(b"$6\r\nfoo\r\n"), "unexpected end of input");
    assert_eq!(parse_failure(b"*2\r\n:1\r\n"), "unexpected end of input");
}

#[test]
fn failure_renders_with_its_kind() {
    let e = decoded(b"?\r\n").unwrap_err();
    assert_eq!(e.to_string(), "parse failed: unexpected token: ?");
    assert_eq!(RespError::IoError(format!("reset")).to_string(), "io err: reset");
    assert_eq!(RespError::AuthFailed(format!("no")).to_string(), "failed on auth: no");
}

#[test]
fn failed_read_leaves_the_reader_in_place() {
    let mut r = RespReader::new(b"$5\r\nhel".to_vec());
    assert!(r.awaits_input());
    assert!(r.read().is_err());
    r.feed(b"lo\r\n:3\r\n");
    assert!(!r.awaits_input());
    assert_eq!(r.read().unwrap(), RespValue::Bulk(b"hello".to_vec()));
    assert_eq!(r.read().unwrap(), RespValue::Int(3));
    assert!(r.awaits_input());
}

#[test]
fn malformed_input_is_not_awaiting_more() {
    let r = RespReader::new(b"x\r\n".to_vec());
    assert!(!r.awaits_input());
}

#[test]
fn writes_each_form() {
    let mut w = RespWriter::new(Vec::new());
    w.write_int(-12).unwrap();
    w.write_bulk(b"ab").unwrap();
    w.write_status("OK").unwrap();
    w.write_error("ERR x").unwrap();
    w.write_array(&[RespValue::Int(1), RespValue::NilBulk]).unwrap();
    w.write(&RespValue::NilArray).unwrap();
    assert_eq!(
        w.into_inner(),
        b":-12\r\n$2\r\nab\r\n+OK\r\n-ERR x\r\n*2\r\n:1\r\n$-1\r\n*-1\r\n".to_vec()
    );
}

#[test]
fn writes_commands() {
    let mut w = RespWriter::new(Vec::new());
    w.write_bulks(&[b"PING".as_slice()]).unwrap();
    assert_eq!(w.into_inner(), b"*1\r\n$4\r\nPING\r\n".to_vec());

    let mut w = RespWriter::new(Vec::new());
    w.write_bulks(&[b"AUTH".as_slice(), b"secret".as_slice()]).unwrap();
    assert_eq!(w.into_inner(), b"*2\r\n$4\r\nAUTH\r\n$6\r\nsecret\r\n".to_vec());
}

#[test]
fn flush_moves_pending_bytes_and_is_idle_when_empty() {
    let mut w = RespWriter::new(b"old".to_vec());
    w.write_int(5).unwrap();
    assert!(w.take_sent() == b"old".to_vec());
    w.flush().unwrap();
    w.flush().unwrap();
    assert_eq!(w.take_sent(), b":5\r\n".to_vec());
    assert_eq!(w.flush(), Ok(()));
    assert_eq!(w.take_sent(), Vec::<u8>::new());
    assert_eq!(w.into_inner(), Vec::<u8>::new());
}

#[test]
fn debug_rendering() {
    let v = RespValue::Array(vec![
        RespValue::Int(-5),
        RespValue::Bulk(b"foo".to_vec()),
        RespValue::NilBulk,
        RespValue::Error(b"x".to_vec()),
        RespValue::Array(Vec::new()),
        RespValue::NilArray,
    ]);
    assert_eq!(
        v.to_debug_string(),
        "Array([Int(-5), Bulk('foo'), NilBulk, Error('x'), Array([]), NilArray])"
    );
    assert_eq!(RespValue::Bulk(vec![b'a', 0xff]).to_debug_string(), "Bulk('a\u{fffd}')");
    assert_eq!(RespValue::Int(i64::MIN).to_debug_string(), "Int(-9223372036854775808)");
}

fn nested(levels: usize) -> Vec<u8> {
    let mut bytes = Vec::new();
    for _ in 0..levels {
        bytes.extend_from_slice(b"*1\r\n");
    }
    bytes.extend_from_slice(b":1\r\n");
    bytes
}

#[test]
fn nesting_up_to_the_limit_is_read() {
    let mut v = decoded(&nested(512)).unwrap();
    let mut levels = 0;
    while let RespValue::Array(mut items) = v {
        assert_eq!(items.len(), 1);
        v = items.pop().unwrap();
        levels += 1;
    }
    assert_eq!(levels, 512);
    assert_eq!(v, RespValue::Int(1));
}

#[test]
fn nesting_beyond_the_limit_is_refused() {
    assert_eq!(parse_failure(&nested(513)), "nesting too deep");
    assert_eq!(parse_failure(&nested(100_000)), "nesting too deep");
}
