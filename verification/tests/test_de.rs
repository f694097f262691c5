use resp_codec::de::{from_bytes, Deserializer};
use resp_codec::error::Error;
use resp_codec::shape::{Case, Shape};
use resp_codec::value::Value;

fn enum_shape() -> Shape {
    Shape::Variant {
        cases: vec![
            Case { tag: b"Unit".to_vec(), payload: vec![] },
            Case { tag: b"Newtype".to_vec(), payload: vec![Shape::Unsigned] },
            Case { tag: b"Tuple".to_vec(), payload: vec![Shape::Unsigned, Shape::Unsigned] },
            Case { tag: b"Struct".to_vec(), payload: vec![Shape::Unsigned] },
        ],
    }
}

#[test]
fn test_unit_struct() {
    let shape = Shape::Record { name: b"Test".to_vec(), fields: vec![] };

    let r = b"*1\r\n$4\r\nTest\r\n".to_vec();
    assert_eq!(
        Value::Record { name: b"Test".to_vec(), fields: vec![] },
        from_bytes(r, &shape).unwrap()
    );
    let r = b"*1\r\n$3\r\nTst\r\n".to_vec();
    match from_bytes(r, &shape) {
        Err(Error::MismatchedName) => assert!(true),
        _ => assert!(false, "MismatchedName error not found"),
    }
}

#[test]
fn test_newtype_struct() {
    let shape = Shape::Record { name: b"Test".to_vec(), fields: vec![Shape::Bytes] };

    let r = b"*2\r\n$4\r\nTest\r\n$4\r\ntest\r\n".to_vec();
    assert_eq!(
        Value::Record {
            name: b"Test".to_vec(),
            fields: vec![Value::Bytes(b"test".to_vec())],
        },
        from_bytes(r, &shape).unwrap()
    );
    let r = b"*2\r\n$3\r\nTst\r\n$4\r\ntest\r\n".to_vec();
    match from_bytes(r, &shape) {
        Err(Error::MismatchedName) => assert!(true),
        _ => assert!(false, "MismatchedName error not found"),
    }
}

#[test]
fn test_seq() {
    let r = b"*2\r\n$4\r\nTest\r\n$4\r\ntest\r\n".to_vec();
    let vec_r = from_bytes(r, &Shape::List(Box::new(Shape::Bytes))).unwrap();
    let r = b"*2\r\n$4\r\nTest\r\n$4\r\ntest\r\n".to_vec();
    let tuple_r = from_bytes(r, &Shape::Tuple(vec![Shape::Bytes, Shape::Bytes])).unwrap();
    assert_eq!(
        Value::List(vec![Value::Bytes(b"Test".to_vec()), Value::Bytes(b"test".to_vec())]),
        vec_r
    );
    assert_eq!(
        Value::List(vec![Value::Bytes(b"Test".to_vec()), Value::Bytes(b"test".to_vec())]),
        tuple_r
    );
}

#[test]
fn test_tuple_struct() {
    let shape = Shape::Record { name: b"Test".to_vec(), fields: vec![Shape::Bytes, Shape::Bytes] };

    let r = b"*3\r\n$4\r\nTest\r\n$4\r\ntest\r\n$3\r\nnil\r\n".to_vec();
    assert_eq!(
        Value::Record {
            name: b"Test".to_vec(),
            fields: vec![Value::Bytes(b"test".to_vec()), Value::Bytes(b"nil".to_vec())],
        },
        from_bytes(r, &shape).unwrap()
    )
}

#[test]
fn test_de_test_struct() {
    let shape = Shape::Record {
        name: b"Test".to_vec(),
        fields: vec![Shape::Bytes, Shape::Unsigned, Shape::List(Box::new(Shape::Unsigned))],
    };

    let r = b"*4\r\n$4\r\nTest\r\n$1\r\na\r\n$2\r\n42\r\n*3\r\n$1\r\n1\r\n$1\r\n2\r\n$1\r\n3\r\n"
        .to_vec();
    assert_eq!(
        Value::Record {
            name: b"Test".to_vec(),
            fields: vec![
                Value::Bytes(b"a".to_vec()),
                Value::Unsigned(42),
                Value::List(vec![
                    Value::Unsigned(1),
                    Value::Unsigned(2),
                    Value::Unsigned(3),
                ]),
            ],
        },
        from_bytes(r, &shape).unwrap()
    )
}

#[test]
fn test_de_test_enum() {
    let shape = enum_shape();

    assert_eq!(
        Value::Variant { tag: b"Unit".to_vec(), payload: vec![] },
        from_bytes(b"*1\r\n$4\r\nUnit\r\n".to_vec(), &shape).unwrap()
    );
    assert_eq!(
        Value::Variant { tag: b"Newtype".to_vec(), payload: vec![Value::Unsigned(1)] },
        from_bytes(b"*2\r\n$7\r\nNewtype\r\n$1\r\n1\r\n".to_vec(), &shape).unwrap()
    );
    assert_eq!(
        Value::Variant {
            tag: b"Tuple".to_vec(),
            payload: vec![Value::Unsigned(1), Value::Unsigned(2)],
        },
        from_bytes(b"*3\r\n$5\r\nTuple\r\n$1\r\n1\r\n$1\r\n2\r\n".to_vec(), &shape).unwrap()
    );
    assert_eq!(
        Value::Variant { tag: b"Struct".to_vec(), payload: vec![Value::Unsigned(1)] },
        from_bytes(b"*2\r\n$6\r\nStruct\r\n$1\r\n1\r\n".to_vec(), &shape).unwrap()
    );
}

#[test]
fn test_iter() {
    let bytes = b"*1\r\n$4\r\nUnit\r\n*2\r\n$7\r\nNewtype\r\n$1\r\n1\r\n".to_vec();
    let mut iter = Deserializer::from_bytes(bytes).into_iter(enum_shape());
    match iter.next() {
        Some(Ok(Value::Variant { tag, payload })) if tag == b"Unit".to_vec()
            && payload.is_empty() => assert!(true),
        _ => assert!(false, "failed to de Unit"),
    };
    match iter.next() {
        Some(Ok(Value::Variant { tag, payload })) if tag == b"Newtype".to_vec()
            && payload == vec![Value::Unsigned(1)] => assert!(true),
        _ => assert!(false, "failed to de Newtype"),
    };
    match iter.next() {
        None => assert!(true),
        _ => assert!(false, "failed to stop iter"),
    };
}

#[test]
fn test_char() {
    assert_eq!(
        from_bytes("$4\r\n\u{1F31F}\r\n".as_bytes().to_vec(), &Shape::Char).unwrap(),
        Value::Char('\u{1F31F}')
    );
}
