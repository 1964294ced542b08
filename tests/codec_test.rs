use anode_kv::codec::{decode, encode, ReadError, Token};

#[test]
fn decodes_integers() {
    let encoded = ":123\r\n";
    let expected = Token::Integer(123);

    let decoded = decode(encoded.as_bytes());
    assert!(decoded.is_ok());
    assert_eq!(expected, decoded.unwrap().0);
}

#[test]
fn decoding_empty_string_fails() {
    let encoded = "";
    let decoded = decode(encoded.as_bytes());
    assert!(decoded.is_err());
    assert!(matches!(decoded, Err(ReadError::InsufficientBytes)))
}

#[test]
fn decoding_int_extra_digits_fails() {
    let encoded = ":19223372036854775807\r\n";
    let decoded = decode(encoded.as_bytes());
    assert!(decoded.is_err());
    assert!(matches!(decoded, Err(ReadError::Malformed(m)) if m == "overflowed i64"));
}

#[test]
fn decoding_int_too_big_fails() {
    let encoded = ":9223372036854775808\r\n";
    let decoded = decode(encoded.as_bytes());
    assert!(decoded.is_err());
    assert!(matches!(decoded, Err(ReadError::Malformed(m)) if m == "overflowed i64"));
}

#[test]
fn decodes_smallest_integer() {
    let decoded = decode(":-9223372036854775808\r\n".as_bytes());
    assert_eq!(Token::Integer(i64::MIN), decoded.unwrap().0);
}

#[test]
fn decodes_basic_string() {
    let encoded = "+hello\r\n";
    let expected = Token::SimpleString("hello".to_string());

    let decoded = decode(encoded.as_bytes());
    assert!(decoded.is_ok());
    assert_eq!(expected, decoded.unwrap().0);
}

#[test]
fn decodes_error() {
    let encoded = "-ERR unknown command\r\n";
    let expected = Token::Error("ERR unknown command".to_string());

    let decoded = decode(encoded.as_bytes());
    assert!(decoded.is_ok());
    assert_eq!(expected, decoded.unwrap().0);
}

#[test]
fn decodes_bulk_string() {
    let encoded = "$5\r\nhello\r\n";
    let expected = Token::BulkString(Some(vec![b'h', b'e', b'l', b'l', b'o']));

    let decoded = decode(encoded.as_bytes());
    assert!(decoded.is_ok());
    assert_eq!(expected, decoded.unwrap().0);
}

#[test]
fn decodes_bulk_string_empty() {
    let encoded = "$0\r\n\r\n";
    let expected = Token::BulkString(Some(vec![]));

    let decoded = decode(encoded.as_bytes());
    assert!(decoded.is_ok());
    assert_eq!(expected, decoded.unwrap().0);
}

#[test]
fn decodes_bulk_string_null() {
    let encoded = "$-1\r\n";
    let expected = Token::BulkString(None);

    let decoded = decode(encoded.as_bytes());
    assert!(decoded.is_ok());
    assert_eq!(expected, decoded.unwrap().0);
}

#[test]
fn decodes_arrays() {
    let encoded = "*3\r\n+hello\r\n+world\r\n:1\r\n";
    let expected_tokens = vec![
        Token::Array(3),
        Token::SimpleString("hello".to_string()),
        Token::SimpleString("world".to_string()),
        Token::Integer(1),
    ];

    let encoded_stream = encoded.as_bytes();
    let mut pos = 0;

    for expected_token in expected_tokens {
        let decoded = decode(&encoded_stream[pos..]);
        assert!(decoded.is_ok());
        let (token, used) = decoded.unwrap();
        assert_eq!(expected_token, token);
        pos += used;
    }
    assert_eq!(pos, encoded_stream.len());
}

#[test]
fn can_encode_decoded_messages() {
    let messages = vec![
        ":123\r\n",
        "+hello\r\n",
        "-ERR unknown command\r\n",
        "$5\r\nhello\r\n",
        "$0\r\n\r\n",
        "$-1\r\n",
        "*3\r\n",
        "+hello\r\n",
        "+world\r\n",
        ":1\r\n",
    ];

    for message in &messages {
        println!("handling: {}", message);
        let decoded = decode(message.as_bytes());
        assert!(decoded.is_ok());

        let mut buf: Vec<u8> = vec![];
        let encoded = encode(&mut buf, &decoded.unwrap().0);

        assert!(encoded.is_ok());
        assert_eq!(message.bytes().collect::<Vec<u8>>(), buf);
    }
}

#[test]
fn round_trips_each_token_kind() {
    let tokens = vec![
        Token::SimpleString("a b c".to_string()),
        Token::Error("ERR x".to_string()),
        Token::Integer(-42),
        Token::Integer(i64::MAX),
        Token::BulkString(None),
        Token::BulkString(Some(vec![0, 13, 10, 255])),
        Token::Array(-1),
        Token::Array(0),
        Token::Array(1),
        Token::Array(128),
    ];
    for t in tokens {
        let mut buf = vec![];
        encode(&mut buf, &t).unwrap();
        let (back, used) = decode(&buf).unwrap();
        assert_eq!(t, back);
        assert_eq!(used, buf.len());
    }
}

#[test]
fn encodes_exact_bytes() {
    let mut buf = vec![];
    encode(&mut buf, &Token::Integer(-7)).unwrap();
    encode(&mut buf, &Token::BulkString(Some(b"hi".to_vec()))).unwrap();
    assert_eq!(buf, b":-7\r\n$2\r\nhi\r\n".to_vec());
}

#[test]
fn decoding_prefixes_needs_more_bytes() {
    let message = b"$5\r\nhello\r\n";
    for k in 0..message.len() {
        assert!(matches!(decode(&message[..k]), Err(ReadError::InsufficientBytes)));
    }
    let mut longer = message.to_vec();
    longer.extend_from_slice(b"+next\r\n");
    let (t, used) = decode(&longer).unwrap();
    assert_eq!(t, Token::BulkString(Some(b"hello".to_vec())));
    assert_eq!(used, message.len());
}

#[test]
fn malformed_inputs_are_reported() {
    assert!(matches!(decode(b":12a\r\n"), Err(ReadError::Malformed(m)) if m == "invalid digit"));
    assert!(matches!(decode(b"+ab\rx"), Err(ReadError::Malformed(m)) if m == "expected \\n after \\r"));
    assert!(matches!(decode(b"$-5\r\n"), Err(ReadError::Malformed(m)) if m == "invalid bulk string length"));
    assert!(matches!(decode(b"$2\r\nabxx"), Err(ReadError::Malformed(m)) if m == "expected \\r\\n after bulk string"));
    assert!(matches!(decode(b":\r\n"), Err(ReadError::Malformed(m)) if m == "expected digit"));
    assert!(matches!(decode(b"?x\r\n"), Err(ReadError::NotImplemented)));
}

#[test]
fn simple_strings_decode_lossily() {
    let (t, _) = decode(b"+a\xffb\r\n").unwrap();
    assert_eq!(t, Token::SimpleString("a\u{fffd}b".to_string()));
}
