use resp_client::{RespReadError, RespReader, RespValue};

#[test]
fn reader_test_read() {
    let r = RespReader::new(b"+OK\r\n".to_vec()).read();
    assert_eq!(r.unwrap(), RespValue::Bulk(b"OK".to_vec()));

    let r = RespReader::new(b"-ERR Bad Request\r\n".to_vec()).read();
    assert_eq!(r.unwrap(), RespValue::Error(b"ERR Bad Request".to_vec()));

    let r = RespReader::new(b"blah\r\n".to_vec()).read();
    assert_eq!(
        r.unwrap_err(),
        RespReadError::ParseFailed(format!("unexpected token: b"))
    );

    let r = RespReader::new(b"*3\r\n$3\r\nfoo\r\n$-1\r\n$3\r\nbar\r\n".to_vec()).read();
    let v = vec![
        RespValue::Bulk(b"foo".to_vec()),
        RespValue::NilBulk,
        RespValue::Bulk(b"bar".to_vec()),
    ];
    assert_eq!(r.unwrap(), RespValue::Array(v));

    let r = RespReader::new(b"*5\r\n:1\r\n:2\r\n:3\r\n:4\r\n$6\r\nfoobar\r\n".to_vec()).read();
    let v = vec![
        RespValue::Int(1),
        RespValue::Int(2),
        RespValue::Int(3),
        RespValue::Int(4),
        RespValue::Bulk(b"foobar".to_vec()),
    ];
    assert_eq!(r.unwrap(), RespValue::Array(v));

    let r = RespReader::new(b"*-1\r\n".to_vec()).read();
    assert_eq!(r.unwrap(), RespValue::NilArray);

    let r = RespReader::new(b"*2\r\n$3\r\nfoo\r\n$3\r\nbar\r\n".to_vec()).read();
    let v = vec![
        RespValue::Bulk(b"foo".to_vec()),
        RespValue::Bulk(b"bar".to_vec()),
    ];
    assert_eq!(r.unwrap(), RespValue::Array(v));
}

#[test]
fn reader_test_read_array_of_array() {
    let input = b"*2\r\n*3\r\n:1\r\n:2\r\n:3\r\n*2\r\n+Foo\r\n-Bar\r\n".to_vec();
    let r = RespReader::new(input).read();
    let arr = RespValue::Array(vec![
        RespValue::Array(vec![
            RespValue::Int(1),
            RespValue::Int(2),
            RespValue::Int(3),
        ]),
        RespValue::Array(vec![
            RespValue::Bulk(b"Foo".to_vec()),
            RespValue::Error(b"Bar".to_vec()),
        ]),
    ]);
    assert_eq!(r.unwrap(), arr);
}
