use resp_codec::de::{from_bytes, Deserializer};
use resp_codec::error::Error;
use resp_codec::shape::{Case, Shape};
use resp_codec::ser::to_bytes;
use resp_codec::value::Value;

fn roundtrip(v: Value, shape: &Shape) {
    let wire = to_bytes(&v).unwrap();
    assert_eq!(from_bytes(wire, shape).unwrap(), v);
}

#[test]
fn roundtrip_bool() {
    let wire = to_bytes(&Value::Bool(true)).unwrap();
    assert_eq!(wire, b"$4\r\ntrue\r\n");
    assert_eq!(from_bytes(wire, &Shape::Bool).unwrap(), Value::Bool(true));
    roundtrip(Value::Bool(false), &Shape::Bool);
}

#[test]
fn roundtrip_numbers() {
    roundtrip(Value::Unsigned(0), &Shape::Unsigned);
    roundtrip(Value::Unsigned(42), &Shape::Unsigned);
    roundtrip(Value::Unsigned(u64::MAX), &Shape::Unsigned);
    roundtrip(Value::Signed(0), &Shape::Signed);
    roundtrip(Value::Signed(-1), &Shape::Signed);
    roundtrip(Value::Signed(i64::MAX), &Shape::Signed);
    roundtrip(Value::Signed(i64::MIN), &Shape::Signed);
    assert_eq!(to_bytes(&Value::Unsigned(42)).unwrap(), b"$2\r\n42\r\n");
    assert_eq!(
        to_bytes(&Value::Signed(i64::MIN)).unwrap(),
        b"$20\r\n-9223372036854775808\r\n"
    );
}

#[test]
fn roundtrip_chars_and_bytes() {
    roundtrip(Value::Char('a'), &Shape::Char);
    roundtrip(Value::Char('\u{e9}'), &Shape::Char);
    roundtrip(Value::Char('\u{4e2d}'), &Shape::Char);
    roundtrip(Value::Char('\u{1F31F}'), &Shape::Char);
    roundtrip(Value::Bytes(vec![]), &Shape::Bytes);
    // payload bytes are read by length, so an embedded terminator is data
    roundtrip(Value::Bytes(b"a\r\nb".to_vec()), &Shape::Bytes);
}

#[test]
fn roundtrip_nested() {
    let shape = Shape::Record {
        name: b"Outer".to_vec(),
        fields: vec![
            Shape::Optional(Box::new(Shape::Unsigned)),
            Shape::List(Box::new(Shape::Variant {
                cases: vec![
                    Case { tag: b"A".to_vec(), payload: vec![] },
                    Case { tag: b"B".to_vec(), payload: vec![Shape::Signed, Shape::Bool] },
                ],
            })),
        ],
    };
    let v = Value::Record {
        name: b"Outer".to_vec(),
        fields: vec![
            Value::Absent,
            Value::List(vec![
                Value::Variant { tag: b"A".to_vec(), payload: vec![] },
                Value::Variant {
                    tag: b"B".to_vec(),
                    payload: vec![Value::Signed(-7), Value::Bool(true)],
                },
            ]),
        ],
    };
    roundtrip(v, &shape);
}

#[test]
fn unit_variant_scenario() {
    // a zero-payload variant is one array of only its tag
    let shape = Shape::Variant { cases: vec![Case { tag: b"Unit".to_vec(), payload: vec![] }] };
    assert_eq!(
        from_bytes(b"*1\r\n$4\r\nUnit\r\n".to_vec(), &shape).unwrap(),
        Value::Variant { tag: b"Unit".to_vec(), payload: vec![] }
    );
}

#[test]
fn tuple_variant_scenario() {
    let shape = Shape::Variant {
        cases: vec![Case { tag: b"Tuple".to_vec(), payload: vec![Shape::Unsigned, Shape::Unsigned] }],
    };
    assert_eq!(
        from_bytes(b"*3\r\n$5\r\nTuple\r\n$1\r\n1\r\n$1\r\n2\r\n".to_vec(), &shape).unwrap(),
        Value::Variant {
            tag: b"Tuple".to_vec(),
            payload: vec![Value::Unsigned(1), Value::Unsigned(2)],
        }
    );
}

#[test]
fn record_scenario() {
    let shape = Shape::Record { name: b"Test".to_vec(), fields: vec![Shape::Unsigned] };
    let v = Value::Record { name: b"Test".to_vec(), fields: vec![Value::Unsigned(1)] };
    let wire = to_bytes(&v).unwrap();
    assert_eq!(wire, b"*2\r\n$4\r\nTest\r\n$1\r\n1\r\n");
    assert_eq!(from_bytes(wire, &shape).unwrap(), v);
    let declared_other = Shape::Record { name: b"Tst".to_vec(), fields: vec![Shape::Unsigned] };
    assert_eq!(
        from_bytes(b"*2\r\n$4\r\nTest\r\n$1\r\n1\r\n".to_vec(), &declared_other),
        Err(Error::MismatchedName)
    );
}

#[test]
fn null_decodes_absent_for_every_scalar_optional() {
    let scalars = vec![Shape::Bool, Shape::Unsigned, Shape::Signed, Shape::Char, Shape::Bytes];
    for inner in scalars {
        let shape = Shape::Optional(Box::new(inner));
        assert_eq!(from_bytes(b"$-1\r\n".to_vec(), &shape).unwrap(), Value::Absent);
    }
    assert_eq!(from_bytes(b"$-1\r\n".to_vec(), &Shape::Unit).unwrap(), Value::Absent);
}

#[test]
fn null_is_no_scalar() {
    assert_eq!(from_bytes(b"$-1\r\n".to_vec(), &Shape::Unsigned), Err(Error::BadNumContent));
    assert_eq!(from_bytes(b"$-1\r\n".to_vec(), &Shape::Signed), Err(Error::BadNumContent));
    assert_eq!(from_bytes(b"$-1\r\n".to_vec(), &Shape::Char), Err(Error::ExpectedChar));
    assert_eq!(
        from_bytes(b"$-1\r\n".to_vec(), &Shape::Bytes),
        Err(Error::ExpectedMoreBulkString)
    );
}

#[test]
fn optional_present_value() {
    let shape = Shape::Optional(Box::new(Shape::Unsigned));
    assert_eq!(from_bytes(b"$1\r\n5\r\n".to_vec(), &shape).unwrap(), Value::Unsigned(5));
}

#[test]
fn trailing_bytes_scenario() {
    let shape = Shape::Record { name: b"Test".to_vec(), fields: vec![] };
    let mut wire = b"*1\r\n$4\r\nTest\r\n".to_vec();
    wire.extend_from_slice(b"abc");
    assert_eq!(from_bytes(wire, &shape), Err(Error::TrailingBytes));
}

#[test]
fn offset_advances_by_wire_length() {
    let mut wire = b"$4\r\ntrue\r\n".to_vec();
    wire.extend_from_slice(b"$2\r\n17\r\n");
    let total = wire.len();
    let mut de = Deserializer::from_bytes(wire);
    assert_eq!(de.bytes_offset(), 0);
    assert_eq!(de.decode(&Shape::Bool).unwrap(), Value::Bool(true));
    assert_eq!(de.bytes_offset(), 10);
    assert_eq!(de.decode(&Shape::Unsigned).unwrap(), Value::Unsigned(17));
    assert_eq!(de.bytes_offset(), total);
}

#[test]
fn sequence_exhaustion_is_no_error() {
    let mut de = Deserializer::from_bytes(b"$1\r\na\r\n".to_vec());
    let mut cnt: u64 = 1;
    assert_eq!(
        de.next_element(&mut cnt, &Shape::Bytes).unwrap(),
        Some(Value::Bytes(b"a".to_vec()))
    );
    assert_eq!(cnt, 0);
    // the header's count is spent: a further request is cleanly empty
    assert_eq!(de.next_element(&mut cnt, &Shape::Bytes).unwrap(), None);
    assert_eq!(de.bytes_offset(), 7);
}

#[test]
fn iterator_two_frames_end_cleanly() {
    let wire = b"$4\r\ntrue\r\n$5\r\nfalse\r\n".to_vec();
    let mut iter = Deserializer::from_bytes(wire).into_iter(Shape::Bool);
    assert_eq!(iter.next(), Some(Ok(Value::Bool(true))));
    assert_eq!(iter.next(), Some(Ok(Value::Bool(false))));
    assert_eq!(iter.next(), None);
    assert_eq!(iter.next(), None);
}

#[test]
fn grammar_errors() {
    assert_eq!(from_bytes(b"".to_vec(), &Shape::Bool), Err(Error::Eof));
    assert_eq!(from_bytes(b"$3\r\nab".to_vec(), &Shape::Bytes), Err(Error::Eof));
    assert_eq!(from_bytes(b"$5\r\nfalsy\r\n".to_vec(), &Shape::Bool), Err(Error::ExpectedBoolean));
    // recognizing a boolean looks eleven bytes ahead, so ten stray bytes end the input first
    assert_eq!(from_bytes(b"$4\r\nabcd\r\n".to_vec(), &Shape::Bool), Err(Error::Eof));
    assert_eq!(from_bytes(b"abc".to_vec(), &Shape::Bytes), Err(Error::ExpectedDollarSign));
    assert_eq!(from_bytes(b"$1\r\na\r\n".to_vec(), &Shape::List(Box::new(Shape::Bytes))),
        Err(Error::ExpectedStarSign));
    assert_eq!(from_bytes(b"*-1\r\n".to_vec(), &Shape::List(Box::new(Shape::Bytes))),
        Err(Error::ExpectedArray));
    assert_eq!(from_bytes(b"$-2\r\n".to_vec(), &Shape::Bytes), Err(Error::BadLengthHint));
    assert_eq!(from_bytes(b"$2x\r\n".to_vec(), &Shape::Bytes), Err(Error::BadLengthHint));
    assert_eq!(from_bytes(b"$1\r\naXY".to_vec(), &Shape::Bytes), Err(Error::ExpectedLF));
    assert_eq!(from_bytes(b"$1\r\naX\n".to_vec(), &Shape::Bytes), Err(Error::UnbalancedCRLF));
    assert_eq!(from_bytes(b"*1\n$1\r\na\r\n".to_vec(), &Shape::List(Box::new(Shape::Bytes))),
        Err(Error::UnbalancedCRLF));
}

#[test]
fn content_errors() {
    assert_eq!(from_bytes(b"$2\r\nab\r\n".to_vec(), &Shape::Unsigned), Err(Error::BadNumContent));
    assert_eq!(from_bytes(b"$2\r\n-a\r\n".to_vec(), &Shape::Signed), Err(Error::BadNumContent));
    // one digit past the largest 64-bit value overflows
    assert_eq!(
        from_bytes(b"$20\r\n18446744073709551616\r\n".to_vec(), &Shape::Unsigned),
        Err(Error::BadNumContent)
    );
    assert_eq!(
        from_bytes(b"$20\r\n18446744073709551615\r\n".to_vec(), &Shape::Unsigned).unwrap(),
        Value::Unsigned(u64::MAX)
    );
    assert_eq!(
        from_bytes(b"$20\r\n-9223372036854775809\r\n".to_vec(), &Shape::Signed),
        Err(Error::BadNumContent)
    );
    assert_eq!(from_bytes(b"$2\r\nab\r\n".to_vec(), &Shape::Char), Err(Error::ExpectedChar));
    // an overlong two-byte encoding of an ASCII character is rejected
    assert_eq!(
        from_bytes(vec![36, 50, 13, 10, 0xC1, 0xA1, 13, 10], &Shape::Char),
        Err(Error::ExpectedChar)
    );
    assert_eq!(from_bytes(b"$1\r\na\r\n".to_vec(), &Shape::Unit), Err(Error::ExpectedNone));
}

#[test]
fn shape_mismatch_errors() {
    let record = Shape::Record { name: b"Test".to_vec(), fields: vec![Shape::Unsigned] };
    assert_eq!(
        from_bytes(b"*3\r\n$4\r\nTest\r\n$1\r\n1\r\n$1\r\n2\r\n".to_vec(), &record),
        Err(Error::MismatchedLengthHint)
    );
    let unit_variant = Shape::Variant { cases: vec![Case { tag: b"Unit".to_vec(), payload: vec![] }] };
    assert_eq!(
        from_bytes(b"*2\r\n$4\r\nUnit\r\n$1\r\n1\r\n".to_vec(), &unit_variant),
        Err(Error::ExpectedDollarSign)
    );
    let pair = Shape::Tuple(vec![Shape::Bytes, Shape::Bytes]);
    assert_eq!(
        from_bytes(b"*1\r\n$1\r\na\r\n".to_vec(), &pair),
        Err(Error::ExpectedMoreBulkString)
    );
    let wide = Shape::Variant {
        cases: vec![Case { tag: b"Wide".to_vec(), payload: vec![Shape::Unsigned] }],
    };
    assert_eq!(
        from_bytes(b"*1\r\n$4\r\nWide\r\n".to_vec(), &wide),
        Err(Error::ExpectedMoreBulkString)
    );
    let other_tag = Shape::Variant { cases: vec![Case { tag: b"A".to_vec(), payload: vec![] }] };
    assert_eq!(
        from_bytes(b"*1\r\n$1\r\nB\r\n".to_vec(), &other_tag),
        Err(Error::MismatchedName)
    );
}

#[test]
fn variant_with_list_payload() {
    // a payload element may itself be an array frame
    let shape = Shape::Variant {
        cases: vec![Case { tag: b"S".to_vec(), payload: vec![Shape::List(Box::new(Shape::Unsigned))] }],
    };
    let v = Value::Variant {
        tag: b"S".to_vec(),
        payload: vec![Value::List(vec![Value::Unsigned(9)])],
    };
    roundtrip(v, &shape);
}

#[test]
fn empty_list_and_empty_bulk() {
    roundtrip(Value::List(vec![]), &Shape::List(Box::new(Shape::Unsigned)));
    assert_eq!(to_bytes(&Value::List(vec![])).unwrap(), b"*0\r\n");
    assert_eq!(from_bytes(b"$0\r\n\r\n".to_vec(), &Shape::Bytes).unwrap(), Value::Bytes(vec![]));
}
