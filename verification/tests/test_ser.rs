use resp_codec::ser::to_bytes;
use resp_codec::value::Value;

#[test]
fn test_ser_test_struct() {
    let test = Value::Record {
        name: b"Test".to_vec(),
        fields: vec![
            Value::Unsigned(1),
            Value::List(vec![Value::Bytes(b"a".to_vec()), Value::Bytes(b"b".to_vec())]),
        ],
    };

    let expected = "*3\r\n$4\r\nTest\r\n$1\r\n1\r\n*2\r\n$1\r\na\r\n$1\r\nb\r\n".as_bytes();
    assert_eq!(to_bytes(&test).unwrap(), expected);
}

#[test]
fn test_ser_test_enum() {
    let u = Value::Variant { tag: b"Unit".to_vec(), payload: vec![] };
    assert_eq!(to_bytes(&u).unwrap(), b"*1\r\n$4\r\nUnit\r\n");

    let n = Value::Variant { tag: b"Newtype".to_vec(), payload: vec![Value::Unsigned(1)] };
    assert_eq!(to_bytes(&n).unwrap(), b"*2\r\n$7\r\nNewtype\r\n$1\r\n1\r\n");

    let t = Value::Variant {
        tag: b"Tuple".to_vec(),
        payload: vec![Value::Unsigned(1), Value::Unsigned(2)],
    };
    assert_eq!(to_bytes(&t).unwrap(), b"*3\r\n$5\r\nTuple\r\n$1\r\n1\r\n$1\r\n2\r\n");

    let s = Value::Variant { tag: b"Struct".to_vec(), payload: vec![Value::Unsigned(1)] };
    assert_eq!(to_bytes(&s).unwrap(), b"*2\r\n$6\r\nStruct\r\n$1\r\n1\r\n");
}
