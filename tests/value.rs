use resp::Value;

#[test]
fn value_enum_is_null() {
    assert_eq!(Value::Null.is_null(), true);
    assert_eq!(Value::NullArray.is_null(), true);
    assert_eq!(Value::String("OK".to_string()).is_null(), false);
    assert_eq!(Value::Error("Err".to_string()).is_null(), false);
    assert_eq!(Value::Integer(123).is_null(), false);
    assert_eq!(Value::Bulk("Bulk".to_string()).is_null(), false);
    assert_eq!(Value::BufBulk(vec![79, 75]).is_null(), false);
    assert_eq!(Value::Array(vec![Value::Null, Value::Integer(123)]).is_null(), false);
}

#[test]
fn value_enum_is_error() {
    assert_eq!(Value::Null.is_error(), false);
    assert_eq!(Value::NullArray.is_error(), false);
    assert_eq!(Value::String("OK".to_string()).is_error(), false);
    assert_eq!(Value::Error("".to_string()).is_error(), true);
    assert_eq!(Value::Error("Err".to_string()).is_error(), true);
    assert_eq!(Value::Integer(123).is_error(), false);
    assert_eq!(Value::Bulk("Bulk".to_string()).is_error(), false);
    assert_eq!(Value::BufBulk(vec![79, 75]).is_error(), false);
    assert_eq!(Value::Array(vec![Value::Null, Value::Integer(123)]).is_error(), false);
}

#[test]
fn enum_encode_null() {
    let val = Value::Null;
    assert_eq!(val.to_encoded_string().unwrap(), "$-1\r\n");
}

#[test]
fn enum_encode_nullarray() {
    let val = Value::NullArray;
    assert_eq!(val.to_encoded_string().unwrap(), "*-1\r\n");
}

#[test]
fn enum_encode_string() {
    let val = Value::String("OK正".to_string());
    assert_eq!(val.to_encoded_string().unwrap(), "+OK正\r\n");
}

#[test]
fn enum_encode_error() {
    let val = Value::Error("error message".to_string());
    assert_eq!(val.to_encoded_string().unwrap(), "-error message\r\n");
}

#[test]
fn enum_encode_integer() {
    let val = Value::Integer(123456789);
    assert_eq!(val.to_encoded_string().unwrap(), ":123456789\r\n");

    let val = Value::Integer(-123456789);
    assert_eq!(val.to_encoded_string().unwrap(), ":-123456789\r\n");
}

#[test]
fn enum_encode_bulk() {
    let val = Value::Bulk("OK正".to_string());
    assert_eq!(val.to_encoded_string().unwrap(), "$5\r\nOK正\r\n");
}

#[test]
fn enum_encode_bufbulk() {
    let val = Value::BufBulk(vec![79, 75]);
    assert_eq!(val.to_encoded_string().unwrap(), "$2\r\nOK\r\n");
}

#[test]
fn enum_encode_array() {
    let val = Value::Array(Vec::new());
    assert_eq!(val.to_encoded_string().unwrap(), "*0\r\n");

    let mut vec: Vec<Value> = Vec::new();
    vec.push(Value::Null);
    vec.push(Value::NullArray);
    vec.push(Value::String("OK".to_string()));
    vec.push(Value::Error("message".to_string()));
    vec.push(Value::Integer(123456789));
    vec.push(Value::Bulk("Hello".to_string()));
    vec.push(Value::BufBulk(vec![79, 75]));
    let val = Value::Array(vec);
    assert_eq!(val.to_encoded_string().unwrap(),
        "*7\r\n$-1\r\n*-1\r\n+OK\r\n-message\r\n:123456789\r\n$5\r\nHello\r\n$2\r\nOK\r\n");
}

#[test]
fn value_enum_to_beautify_string() {
    assert_eq!(Value::Null.to_beautify_string(), "(Null)");
    assert_eq!(Value::NullArray.to_beautify_string(), "(Null Array)");
    assert_eq!(Value::String("OK".to_string()).to_beautify_string(), "OK");
    assert_eq!(Value::Error("Err".to_string()).to_beautify_string(), "(Error) Err");
    assert_eq!(Value::Integer(123).to_beautify_string(), "(Integer) 123");
    assert_eq!(Value::Bulk("Bulk String".to_string()).to_beautify_string(), "\"Bulk String\"");
    assert_eq!(Value::BufBulk(vec![]).to_beautify_string(), "(Empty Buffer)");
    assert_eq!(Value::BufBulk(vec![0, 100]).to_beautify_string(), "(Buffer) 00 64");
    assert_eq!(Value::BufBulk(vec![0, 1, 2, 3, 4, 5, 6, 7, 8, 9, 10, 11, 12, 13, 14, 15, 16,
        17, 18]).to_beautify_string(),
        "(Buffer) 00 01 02 03 04 05 06 07 08 09 0a 0b 0c 0d 0e 0f ...");
    assert_eq!(Value::Array(vec![]).to_beautify_string(), "(Empty Array)");
    assert_eq!(Value::Array(vec![Value::Null, Value::Integer(123)]).to_beautify_string(),
        "1) (Null)\n2) (Integer) 123");

    let _values = vec![
        Value::Null,
        Value::NullArray,
        Value::String("OK".to_string()),
        Value::Error("Err".to_string()),
        Value::Integer(123),
        Value::Bulk("Bulk String".to_string()),
        Value::Array(vec![]),
        Value::BufBulk(vec![0, 100]),
        Value::Array(vec![Value::Array(vec![]), Value::Integer(123), Value::Bulk("Bulk String".to_string())])
    ];
    let mut values = _values.clone();
    values.push(Value::Array(_values));
    values.push(Value::Null);
    let mut _values = values.clone();
    _values.push(Value::Array(values));
    _values.push(Value::Null);

let enum_fmt_result = " 1) (Null)
 2) (Null Array)
 3) OK
 4) (Error) Err
 5) (Integer) 123
 6) \"Bulk String\"
 7) (Empty Array)
 8) (Buffer) 00 64
 9) 1) (Empty Array)
    2) (Integer) 123
    3) \"Bulk String\"
10) 1) (Null)
    2) (Null Array)
    3) OK
    4) (Error) Err
    5) (Integer) 123
    6) \"Bulk String\"
    7) (Empty Array)
    8) (Buffer) 00 64
    9) 1) (Empty Array)
       2) (Integer) 123
       3) \"Bulk String\"
11) (Null)
12) 1) (Null)
    2) (Null Array)
    3) OK
    4) (Error) Err
    5) (Integer) 123
    6) \"Bulk String\"
    7) (Empty Array)
    8) (Buffer) 00 64
    9) 1) (Empty Array)
       2) (Integer) 123
       3) \"Bulk String\"
   10) 1) (Null)
       2) (Null Array)
       3) OK
       4) (Error) Err
       5) (Integer) 123
       6) \"Bulk String\"
       7) (Empty Array)
       8) (Buffer) 00 64
       9) 1) (Empty Array)
          2) (Integer) 123
          3) \"Bulk String\"
   11) (Null)
13) (Null)";

    assert_eq!(Value::Array(_values).to_beautify_string(), enum_fmt_result);
}
