use resp_client::{GenericConnection, RespReader, RespValue, RespWriter};

#[test]
fn connection_test_read() {
    let r = RespReader::new(b"+PONG\r\n".to_vec());
    let w = RespWriter::new(Vec::new());
    let mut conn = GenericConnection::open(r, w, None).unwrap();
    let r = conn.execute(&vec!["ping".as_bytes()]).unwrap();
    assert_eq!(r, RespValue::Bulk(b"PONG".to_vec()));
}
