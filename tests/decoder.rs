use resp_server::{decode, encode, DecodeError, Decoder, RespValue};

fn first_value(bytes: &[u8]) -> RespValue {
    let mut decoder = Decoder::new(bytes.to_vec());
    decoder.next().unwrap().unwrap()
}

#[test]
fn test_decode_simple_string() {
    let decoded = first_value("+PING\r\n".as_bytes());
    assert_eq!(decoded, RespValue::SimpleString("PING".into()));
}

#[test]
fn test_decode_bulk_string_empty() {
    let decoded = first_value("$0\r\n\r\n".as_bytes());
    assert_eq!(decoded, RespValue::BulkString("".into()));
}

#[test]
fn test_decode_bulk_string() {
    let decoded = first_value("$5\r\nhello\r\n".as_bytes());
    assert_eq!(decoded, RespValue::BulkString("hello".into()));
}

#[test]
fn test_decode_array_empty() {
    let decoded = first_value("*0\r\n".as_bytes());
    assert_eq!(decoded, RespValue::Array(vec![]));
}

#[test]
fn test_decode_array_bulk_strings() {
    let decoded = first_value("*2\r\n$5\r\nhello\r\n$5\r\nworld\r\n".as_bytes());
    assert_eq!(
        decoded,
        RespValue::Array(vec![
            RespValue::BulkString("hello".into()),
            RespValue::BulkString("world".into())
        ])
    );
}

#[test]
fn truncated_payload_is_an_error() {
    assert_eq!(decode(b"$5\r\nhel"), Err(DecodeError::Truncated));
    assert_eq!(decode(b"+PIN"), Err(DecodeError::Truncated));
    assert_eq!(decode(b"*2\r\n$1\r\na\r\n"), Err(DecodeError::Truncated));
    assert_eq!(decode(b""), Err(DecodeError::Truncated));
}

#[test]
fn unknown_marker_is_an_error() {
    assert_eq!(decode(b"@foo\r\n"), Err(DecodeError::InvalidMarker(b'@')));
    assert_eq!(decode(b"*1\r\n:1\r\n"), Err(DecodeError::InvalidMarker(b':')));
}

#[test]
fn malformed_lengths_are_errors() {
    assert_eq!(decode(b"$x\r\n"), Err(DecodeError::InvalidLength));
    assert_eq!(decode(b"$-1\r\n"), Err(DecodeError::InvalidLength));
    assert_eq!(decode(b"$\r\n"), Err(DecodeError::InvalidLength));
    assert_eq!(decode(b"*+\r\n"), Err(DecodeError::InvalidLength));
    assert_eq!(
        decode(b"$99999999999999999999999\r\n"),
        Err(DecodeError::InvalidLength)
    );
}

#[test]
fn plus_sign_before_a_length_is_accepted() {
    assert_eq!(
        decode(b"$+2\r\nhi\r\n"),
        Ok((RespValue::BulkString("hi".into()), 9))
    );
}

#[test]
fn invalid_utf8_is_an_error() {
    assert_eq!(decode(b"+\xff\r\n"), Err(DecodeError::InvalidUtf8));
    assert_eq!(decode(b"$1\r\n\xff\r\n"), Err(DecodeError::InvalidUtf8));
}

#[test]
fn multibyte_text_is_decoded() {
    assert_eq!(
        decode("$2\r\né\r\n".as_bytes()),
        Ok((RespValue::BulkString("é".into()), 8))
    );
}

#[test]
fn clean_end_of_stream_gives_no_value() {
    let mut decoder = Decoder::new(Vec::new());
    assert!(decoder.next().is_none());
    let mut decoder = Decoder::new(b"+OK\r\n".to_vec());
    assert_eq!(
        decoder.next(),
        Some(Ok(RespValue::SimpleString("OK".into())))
    );
    assert!(decoder.next().is_none());
    let mut decoder = Decoder::new(b"+O".to_vec());
    assert_eq!(decoder.next(), Some(Err(DecodeError::Truncated)));
}

#[test]
fn declared_lengths_are_consumed_exactly() {
    assert_eq!(
        decode(b"$5\r\nhello\r\n+OK\r\n"),
        Ok((RespValue::BulkString("hello".into()), 11))
    );
    assert_eq!(decode(b"$0\r\n\r\n+OK\r\n"), Ok((RespValue::BulkString("".into()), 6)));
    assert_eq!(decode(b"*0\r\n+OK\r\n"), Ok((RespValue::Array(vec![]), 4)));
    let mut decoder = Decoder::new(b"*1\r\n$2\r\nab\r\n+NEXT\r\n".to_vec());
    assert_eq!(
        decoder.next(),
        Some(Ok(RespValue::Array(vec![RespValue::BulkString("ab".into())])))
    );
    assert_eq!(
        decoder.next(),
        Some(Ok(RespValue::SimpleString("NEXT".into())))
    );
    assert!(decoder.next().is_none());
}

#[test]
fn bytes_after_a_payload_are_skipped_unchecked() {
    assert_eq!(
        decode(b"$2\r\nhiXY+OK\r\n"),
        Ok((RespValue::BulkString("hi".into()), 8))
    );
}

#[test]
fn bytes_fed_later_complete_a_value() {
    let mut decoder = Decoder::new(b"$5\r\nhel".to_vec());
    assert_eq!(decoder.next(), Some(Err(DecodeError::Truncated)));
    decoder.feed(b"lo\r\n+A");
    assert_eq!(
        decoder.next(),
        Some(Ok(RespValue::BulkString("hello".into())))
    );
    assert_eq!(decoder.next(), Some(Err(DecodeError::Truncated)));
    decoder.feed(b"\r\n");
    assert_eq!(decoder.next(), Some(Ok(RespValue::SimpleString("A".into()))));
    assert!(decoder.next().is_none());
}

#[test]
fn encoding_gives_canonical_bytes() {
    assert_eq!(encode(&RespValue::SimpleString("OK".into())), b"+OK\r\n".to_vec());
    assert_eq!(
        encode(&RespValue::BulkString("hello".into())),
        b"$5\r\nhello\r\n".to_vec()
    );
    assert_eq!(encode(&RespValue::BulkString("é".into())), "$2\r\né\r\n".as_bytes().to_vec());
    assert_eq!(encode(&RespValue::Array(vec![])), b"*0\r\n".to_vec());
    let twelve = RespValue::Array((0..12).map(|_| RespValue::BulkString("".into())).collect());
    let bytes = encode(&twelve);
    assert!(bytes.starts_with(b"*12\r\n$0\r\n\r\n"));
    assert_eq!(bytes.len(), 5 + 12 * 6);
}

#[test]
fn encoded_values_decode_to_themselves() {
    let value = RespValue::Array(vec![
        RespValue::SimpleString("PING".into()),
        RespValue::BulkString("héllo\r\nworld".into()),
        RespValue::Array(vec![RespValue::Array(vec![]), RespValue::BulkString("".into())]),
    ]);
    let bytes = encode(&value);
    let expected = RespValue::Array(vec![
        RespValue::SimpleString("PING".into()),
        RespValue::BulkString("héllo\r\nworld".into()),
        RespValue::Array(vec![RespValue::Array(vec![]), RespValue::BulkString("".into())]),
    ]);
    assert_eq!(decode(&bytes), Ok((expected, bytes.len())));
}
