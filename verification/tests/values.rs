use scylla_codec::errors::ErrorKind;
use scylla_codec::value::{decode_value, CqlValueWrapper, HostValue, ProtocolValue};

#[test]
fn scalars_decode_to_their_host_kinds() {
    assert!(matches!(
        decode_value(&ProtocolValue::Boolean(true)),
        Ok(HostValue::Bool(true))
    ));
    assert!(matches!(
        decode_value(&ProtocolValue::Int(-5)),
        Ok(HostValue::Int(-5))
    ));
    assert!(matches!(
        decode_value(&ProtocolValue::SmallInt(7)),
        Ok(HostValue::SmallInt(7))
    ));
    assert!(matches!(
        decode_value(&ProtocolValue::TinyInt(-3)),
        Ok(HostValue::TinyInt(-3))
    ));
    match decode_value(&ProtocolValue::Text(String::from("abc"))) {
        Ok(HostValue::Text(t)) => assert_eq!(t, "abc"),
        _ => panic!("text decodes to text"),
    }
    match decode_value(&ProtocolValue::Blob(vec![1, 2, 3])) {
        Ok(HostValue::Buffer(b)) => assert_eq!(b, vec![1, 2, 3]),
        _ => panic!("blob decodes to a buffer"),
    }
    match decode_value(&ProtocolValue::BigInt(-42)) {
        Ok(HostValue::BigInt(h)) => {
            assert!(h.sign_bit);
            assert_eq!(h.words, vec![42]);
        },
        _ => panic!("bigint decodes to a big integer"),
    }
    match decode_value(&ProtocolValue::Double(f64::to_bits(1.5))) {
        Ok(HostValue::DoubleBits(bits)) => assert_eq!(f64::from_bits(bits), 1.5),
        _ => panic!("double carries its bits"),
    }
}

#[test]
fn temporal_values_decode_through_their_wrappers() {
    match decode_value(&ProtocolValue::Date(2_147_483_648 + 20148)) {
        Ok(HostValue::Date(w)) => {
            assert_eq!(w.value, 20148);
            let d = w.get_date().expect("in range");
            assert_eq!((d.year, d.month, d.day), (2025, 3, 1));
        },
        _ => panic!("date decodes to a date wrapper"),
    }
    match decode_value(&ProtocolValue::Time(1_000_000)) {
        Ok(HostValue::Time(w)) => assert_eq!(w.to_format(), "00:00:00.001"),
        _ => panic!("time decodes to a time wrapper"),
    }
    match decode_value(&ProtocolValue::Time(-1)) {
        Err(e) => assert!(matches!(e.kind, ErrorKind::Range)),
        _ => panic!("a time outside the day is out of range"),
    }
    match decode_value(&ProtocolValue::Duration(1, 2, 3)) {
        Ok(HostValue::Duration(d)) => {
            assert_eq!((d.months, d.days, d.nanoseconds), (1, 2, 3));
        },
        _ => panic!("duration decodes to a duration wrapper"),
    }
}

#[test]
fn decimal_decodes_to_its_wire_buffer() {
    match decode_value(&ProtocolValue::Decimal(2, vec![0x04, 0xd2])) {
        Ok(HostValue::Buffer(b)) => assert_eq!(b, vec![0, 0, 0, 2, 0x04, 0xd2]),
        _ => panic!("decimal decodes to its wire buffer"),
    }
}

#[test]
fn varint_decodes_to_a_big_integer() {
    match decode_value(&ProtocolValue::Varint(vec![0xfb])) {
        Ok(HostValue::BigInt(h)) => {
            assert!(h.sign_bit);
            assert_eq!(h.words, vec![5]);
        },
        _ => panic!("varint decodes to a big integer"),
    }
}

#[test]
fn the_empty_value_is_unsupported() {
    match decode_value(&ProtocolValue::Empty) {
        Err(e) => assert!(matches!(e.kind, ErrorKind::UnsupportedType)),
        _ => panic!("the empty value has no host mapping"),
    }
}

#[test]
fn inet_lengths_are_checked() {
    assert!(matches!(
        decode_value(&ProtocolValue::Inet(vec![127, 0, 0, 1])),
        Ok(HostValue::Inet(_))
    ));
    match decode_value(&ProtocolValue::Inet(vec![1, 2, 3])) {
        Err(e) => assert!(matches!(e.kind, ErrorKind::Protocol)),
        _ => panic!("a three-byte address violates the layout"),
    }
}

#[test]
fn three_records() {
    // A record with a null field and a nested list decodes preserving field
    // order and null positions exactly.
    let value = ProtocolValue::Udt {
        keyspace: String::from("ks"),
        name: String::from("t"),
        fields: vec![
            (String::from("first"), Some(ProtocolValue::Int(1))),
            (String::from("missing"), None),
            (
                String::from("nested"),
                Some(ProtocolValue::List(vec![
                    ProtocolValue::Text(String::from("a")),
                    ProtocolValue::Text(String::from("b")),
                ])),
            ),
        ],
    };
    let wrapper = CqlValueWrapper { inner: value };
    match wrapper.decode() {
        Ok(HostValue::Record(fields)) => {
            assert_eq!(fields.len(), 3);
            assert_eq!(fields[0].0, "first");
            assert!(matches!(fields[0].1, Some(HostValue::Int(1))));
            assert_eq!(fields[1].0, "missing");
            assert!(fields[1].1.is_none());
            assert_eq!(fields[2].0, "nested");
            match &fields[2].1 {
                Some(HostValue::List(items)) => {
                    assert_eq!(items.len(), 2);
                    match (&items[0], &items[1]) {
                        (HostValue::Text(a), HostValue::Text(b)) => {
                            assert_eq!(a, "a");
                            assert_eq!(b, "b");
                        },
                        _ => panic!("nested list keeps its order"),
                    }
                },
                _ => panic!("nested list decodes in place"),
            }
        },
        _ => panic!("record decodes to a record"),
    }
}

#[test]
fn a_failing_element_aborts_the_composite() {
    let value = ProtocolValue::List(vec![ProtocolValue::Int(1), ProtocolValue::Empty]);
    match decode_value(&value) {
        Err(e) => assert!(matches!(e.kind, ErrorKind::UnsupportedType)),
        _ => panic!("no partial composite results"),
    }
}

#[test]
fn maps_and_tuples_keep_positions() {
    let value = ProtocolValue::MapValue(vec![
        (ProtocolValue::Int(1), ProtocolValue::Boolean(true)),
        (ProtocolValue::Int(2), ProtocolValue::Boolean(false)),
    ]);
    match decode_value(&value) {
        Ok(HostValue::Pairs(pairs)) => {
            assert_eq!(pairs.len(), 2);
            assert!(matches!(pairs[0].0, HostValue::Int(1)));
            assert!(matches!(pairs[0].1, HostValue::Bool(true)));
            assert!(matches!(pairs[1].0, HostValue::Int(2)));
            assert!(matches!(pairs[1].1, HostValue::Bool(false)));
        },
        _ => panic!("map decodes to ordered pairs"),
    }
    let value = ProtocolValue::Tuple(vec![None, Some(ProtocolValue::Int(9))]);
    match decode_value(&value) {
        Ok(HostValue::Tuple(items)) => {
            assert_eq!(items.len(), 2);
            assert!(items[0].is_none());
            assert!(matches!(items[1], Some(HostValue::Int(9))));
        },
        _ => panic!("tuple decodes positionally"),
    }
}
