use resp::{encode, encode_slice, Decoder, Deserializer, Error, ErrorCode, Value};

fn sample() -> Value {
    Value::Array(vec![
        Value::Null,
        Value::NullArray,
        Value::String("abcdefg".to_string()),
        Value::Error("abcdefg".to_string()),
        Value::Integer(123456789),
        Value::Bulk("abcdefg".to_string()),
        Value::Array(vec![Value::Integer(-1), Value::Bulk("".to_string())]),
    ])
}

#[test]
fn null_encodings_are_exact() {
    assert_eq!(encode(&Value::Null), b"$-1\r\n".to_vec());
    assert_eq!(encode(&Value::NullArray), b"*-1\r\n".to_vec());
}

#[test]
fn command_encoding_is_exact() {
    assert_eq!(encode_slice(&["SET", "a", "1"]), b"*3\r\n$3\r\nSET\r\n$1\r\na\r\n$1\r\n1\r\n".to_vec());
    assert_eq!(encode_slice(&[]), b"*0\r\n".to_vec());
}

#[test]
fn integer_extremes_encode() {
    assert_eq!(encode(&Value::Integer(i64::MIN)), b":-9223372036854775808\r\n".to_vec());
    assert_eq!(encode(&Value::Integer(i64::MAX)), b":9223372036854775807\r\n".to_vec());
    assert_eq!(encode(&Value::Integer(0)), b":0\r\n".to_vec());
}

#[test]
fn bulk_length_counts_bytes() {
    assert_eq!(encode(&Value::Bulk("é".to_string())), b"$2\r\n\xc3\xa9\r\n".to_vec());
}

#[test]
fn bulk_length_bound_is_enforced() {
    let mut de = Deserializer::new();
    let r = de.feed(b"$536870912\r\n");
    assert!(matches!(r, Err(Error::Protocol(ErrorCode::InvalidBulk))));
    assert_eq!(de.pending_byte_count(), 0);

    let r = de.feed(b"$99999999999999999999\r\n");
    assert!(matches!(r, Err(Error::Protocol(ErrorCode::InvalidBulk))));

    let r = de.feed(b"$-2\r\n");
    assert!(matches!(r, Err(Error::Protocol(ErrorCode::InvalidBulk))));

    let r = de.feed(b"*536870912\r\n");
    assert!(matches!(r, Err(Error::Protocol(ErrorCode::InvalidArray))));

    // just under the bound: the decoder waits for the payload
    assert!(de.feed(b"$536870911\r\n").is_ok());
    assert_eq!(de.pending_value_count(), 0);
    assert_eq!(de.pending_byte_count(), 12);
}

#[test]
fn decoder_recovers_after_error() {
    let mut de = Deserializer::new();
    let r = de.feed(b"&-1\r\n");
    assert!(matches!(r, Err(Error::Protocol(ErrorCode::InvalidPrefix(b'&')))));
    assert_eq!(de.pending_byte_count(), 0);
    assert!(de.feed(b"$-1\r\n").is_ok());
    assert_eq!(de.read(), Some(Value::Null));
    assert_eq!(de.read(), None);
}

#[test]
fn empty_bulk_in_two_feeds() {
    let mut de = Deserializer::new();
    assert!(de.feed(b"$0\r\n").is_ok());
    assert_eq!(de.read(), None);
    assert!(de.feed(b"\r\n").is_ok());
    assert_eq!(de.read(), Some(Value::Bulk("".to_string())));
}

#[test]
fn array_decodes_in_one_feed() {
    let value = Value::Array(vec![Value::Null, Value::Integer(123), Value::Bulk("x".to_string())]);
    let mut de = Deserializer::new();
    assert!(de.feed(&encode(&value)).is_ok());
    assert_eq!(de.read(), Some(value));
    assert_eq!(de.read(), None);
    assert_eq!(de.pending_byte_count(), 0);
}

#[test]
fn round_trip_text_mode() {
    let value = sample();
    let bytes = encode(&value);
    let mut decoder = Decoder::new(bytes.as_slice());
    assert_eq!(decoder.decode().unwrap(), value);
    assert!(matches!(decoder.decode(), Err(Error::Eof)));
}

#[test]
fn round_trip_buf_bulk_mode() {
    let value = Value::Array(vec![Value::BufBulk(vec![0, 255, 13, 10]), Value::Integer(7)]);
    let bytes = encode(&value);
    let mut de = Deserializer::with_buf_bulk();
    assert!(de.feed(&bytes).is_ok());
    assert_eq!(de.read(), Some(value));
}

#[test]
fn byte_at_a_time_matches_one_feed() {
    let value = sample();
    let bytes = encode(&value);

    let mut whole = Deserializer::new();
    assert!(whole.feed(&bytes).is_ok());

    let mut bytewise = Deserializer::new();
    for (i, b) in bytes.iter().enumerate() {
        assert!(bytewise.feed(&[*b]).is_ok());
        if i + 1 < bytes.len() {
            assert_eq!(bytewise.pending_value_count(), 0);
            assert!(bytewise.pending_byte_count() > 0);
        }
    }
    assert_eq!(bytewise.pending_byte_count(), 0);
    assert_eq!(bytewise.read(), whole.read());
    assert_eq!(bytewise.read(), None);
}

#[test]
fn values_come_out_in_arrival_order() {
    let mut de = Deserializer::new();
    assert!(de.feed(b":1\r\n:2\r\n+three\r\n:4").is_ok());
    assert_eq!(de.pending_value_count(), 3);
    assert_eq!(de.read(), Some(Value::Integer(1)));
    assert_eq!(de.read(), Some(Value::Integer(2)));
    assert_eq!(de.read(), Some(Value::String("three".to_string())));
    assert_eq!(de.read(), None);
    assert_eq!(de.pending_byte_count(), 2);
    assert!(de.feed(b"\r\n").is_ok());
    assert_eq!(de.read(), Some(Value::Integer(4)));
}

#[test]
fn values_before_an_error_stay_queued() {
    let mut de = Deserializer::new();
    let r = de.feed(b":1\r\n!oops\r\n:2\r\n");
    assert!(matches!(r, Err(Error::Protocol(ErrorCode::InvalidPrefix(b'!')))));
    assert_eq!(de.pending_byte_count(), 0);
    assert_eq!(de.read(), Some(Value::Integer(1)));
    assert_eq!(de.read(), None);
}

#[test]
fn each_error_kind() {
    let cases: Vec<(&[u8], ErrorCode)> = vec![
        (b"+\xff\r\n", ErrorCode::InvalidString),
        (b"-\xff\r\n", ErrorCode::InvalidError),
        (b":abc\r\n", ErrorCode::InvalidInteger),
        (b":\r\n", ErrorCode::InvalidInteger),
        (b":9223372036854775808\r\n", ErrorCode::InvalidInteger),
        (b"$2\r\nabXY", ErrorCode::InvalidBulk),
        (b"$1\r\n\xff\r\n", ErrorCode::InvalidBulk),
        (b"$x\r\n", ErrorCode::InvalidBulk),
        (b"*-2\r\n", ErrorCode::InvalidArray),
        (b"*x\r\n", ErrorCode::InvalidArray),
        (b"*2\r\n:1\r\n:x\r\n", ErrorCode::InvalidInteger),
        (b"?", ErrorCode::InvalidPrefix(b'?')),
    ];
    for (input, code) in cases {
        let mut de = Deserializer::new();
        match de.feed(input) {
            Err(Error::Protocol(c)) => assert_eq!(c, code),
            other => panic!("unexpected {:?}", other),
        }
        assert_eq!(de.pending_byte_count(), 0);
        assert_eq!(de.pending_value_count(), 0);
    }
}

#[test]
fn integers_read_with_sign_and_extremes() {
    let mut de = Deserializer::new();
    assert!(de.feed(b":+5\r\n:-9223372036854775808\r\n:9223372036854775807\r\n:007\r\n").is_ok());
    assert_eq!(de.read(), Some(Value::Integer(5)));
    assert_eq!(de.read(), Some(Value::Integer(i64::MIN)));
    assert_eq!(de.read(), Some(Value::Integer(i64::MAX)));
    assert_eq!(de.read(), Some(Value::Integer(7)));
}

#[test]
fn text_is_decoded_not_copied() {
    let mut de = Deserializer::new();
    assert!(de.feed("+OK正\r\n$3\r\n正\r\n".as_bytes()).is_ok());
    assert_eq!(de.read(), Some(Value::String("OK正".to_string())));
    assert_eq!(de.read(), Some(Value::Bulk("正".to_string())));
}

#[test]
fn incomplete_input_is_eof() {
    let mut decoder = Decoder::new(b"$5\r\nab");
    assert!(matches!(decoder.decode(), Err(Error::Eof)));
    let mut decoder = Decoder::new(b"*2\r\n:1\r\n");
    assert!(matches!(decoder.decode(), Err(Error::Eof)));
}

#[test]
fn decoder_discards_rest_after_error() {
    let mut decoder = Decoder::new(b":1\r\n&\r\n:2\r\n");
    assert_eq!(decoder.decode().unwrap(), Value::Integer(1));
    assert!(matches!(decoder.decode(), Err(Error::Protocol(ErrorCode::InvalidPrefix(b'&')))));
    assert!(matches!(decoder.decode(), Err(Error::Eof)));
}

#[test]
fn encoded_string_fails_on_raw_bytes() {
    let value = Value::BufBulk(vec![0xff]);
    match value.to_encoded_string() {
        Err(Error::FromUtf8(bytes)) => assert_eq!(bytes, b"$1\r\n\xff\r\n".to_vec()),
        other => panic!("unexpected {:?}", other),
    }
}

#[test]
fn error_messages() {
    assert_eq!(ErrorCode::InvalidString.as_str(), "Parse '+' failed");
    assert_eq!(ErrorCode::InvalidError.as_str(), "Parse '-' failed");
    assert_eq!(ErrorCode::InvalidInteger.as_str(), "Parse ':' failed");
    assert_eq!(ErrorCode::InvalidBulk.as_str(), "Parse '$' failed");
    assert_eq!(ErrorCode::InvalidArray.as_str(), "Parse '*' failed");
    assert_eq!(ErrorCode::InvalidPrefix(b'&').to_string(), "Invalid prefix");
    assert_eq!(Error::Protocol(ErrorCode::InvalidBulk).description(), "Parse '$' failed");
    assert_eq!(Error::Eof.description(), "unexpected end of input");
    assert_eq!(Error::Io("broken pipe".to_string()).description(), "broken pipe");
}

#[test]
fn clone_is_deep() {
    let value = sample();
    assert_eq!(value.clone(), value);
}

#[test]
fn nested_array_rendering_aligns_labels() {
    let mut items = Vec::new();
    for i in 0..10 {
        items.push(Value::Integer(i));
    }
    let value = Value::Array(vec![Value::Array(items), Value::Null]);
    let text = value.to_beautify_string();
    assert!(text.starts_with("1) 1) (Integer) 0\n   2) (Integer) 1\n"));
    assert!(text.contains("\n  10) (Integer) 9\n2) (Null)"));
}
