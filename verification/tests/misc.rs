use scylla_codec::bignum::HostBigInt;
use scylla_codec::duration::DurationWrapper;
use scylla_codec::encode::{EncodedValuesWrapper, MaybeUnsetNullableValue};
use scylla_codec::errors::{js_typed_error_text, CodecError, ConvertedError, ErrorKind, ErrorType};
use scylla_codec::inet::InetAddressWrapper;
use scylla_codec::request::{resolve_statement_options, QueryOptionsObj, QueryOptionsWrapper};
use scylla_codec::result::{MetaColumnWrapper, QueryResultWrapper, ResultPage, RowWrapper};
use scylla_codec::utils::CharCounter;
use scylla_codec::uuid_val::{get_random_uuid_v4, UuidWrapper};

#[test]
fn error_names_match_their_classes() {
    assert_eq!(ErrorType::RangeError.name(), "RangeError");
    assert_eq!(ErrorType::ArgumentError.name(), "ArgumentError");
    assert_eq!(ErrorKind::Format.name(), "FormatError");
    assert_eq!(ErrorKind::UnsupportedType.name(), "UnsupportedTypeError");
    assert_eq!(ErrorKind::Protocol.name(), "ProtocolError");
    assert_eq!(ErrorKind::Overflow.name(), "OverflowError");
    let e = CodecError::new(ErrorKind::Range, "day out of range");
    let c = ConvertedError::from_codec(&e);
    assert_eq!(c.name().as_str(), "RangeError");
    assert_eq!(c.message().as_str(), "day out of range");
    assert_eq!(
        js_typed_error_text("oops", &ErrorType::TypeError),
        "TypeError#oops"
    );
}

#[test]
fn cells_serialize_with_their_markers() {
    let v = EncodedValuesWrapper::from_bytes(vec![0xab, 0xcd]);
    assert_eq!(v.serialize().ok(), Some(vec![0, 0, 0, 2, 0xab, 0xcd]));
    assert_eq!(
        EncodedValuesWrapper::null().serialize().ok(),
        Some(vec![0xff, 0xff, 0xff, 0xff])
    );
    assert_eq!(
        EncodedValuesWrapper::unset().serialize().ok(),
        Some(vec![0xff, 0xff, 0xff, 0xfe])
    );
    assert!(matches!(
        EncodedValuesWrapper::from_bytes(vec![]).inner,
        MaybeUnsetNullableValue::Value(_)
    ));
}

#[test]
fn inet_addresses_take_two_lengths() {
    let v4 = InetAddressWrapper::new(&[192, 168, 0, 1]).ok().expect("four octets");
    assert_eq!(v4.get_length(), 4);
    assert_eq!(v4.get_version(), 4);
    assert_eq!(v4.get_buffer(), vec![192, 168, 0, 1]);
    let v6 = InetAddressWrapper::new(&[0u8; 16]).ok().expect("sixteen octets");
    assert_eq!(v6.get_length(), 16);
    assert_eq!(v6.get_version(), 6);
    let bad = InetAddressWrapper::new(&[1, 2, 3]);
    match bad {
        Err(e) => assert_eq!(e.name().as_str(), "TypeError"),
        Ok(_) => panic!("three octets are not an address"),
    }
}

#[test]
fn uuids_round_trip_their_bytes() {
    let bytes: Vec<u8> = (0..16).collect();
    let w = UuidWrapper::new(&bytes).ok().expect("sixteen bytes");
    assert_eq!(w.get_buffer(), bytes);
    let u = w.get_cql_uuid();
    let again = UuidWrapper::from_cql_uuid(u);
    assert_eq!(again.get_buffer(), bytes);
    assert!(UuidWrapper::new(&bytes[..15]).is_err());
    assert_eq!(get_random_uuid_v4().len(), 16);
}

#[test]
fn durations_pass_their_components_through() {
    let ns = HostBigInt { sign_bit: true, words: vec![500] };
    let d = DurationWrapper::new(3, 11, &ns).ok().expect("fits");
    assert_eq!((d.months, d.days, d.nanoseconds), (3, 11, -500));
    let back = d.get_nanoseconds();
    assert!(back.sign_bit);
    assert_eq!(back.words, vec![500]);
    let cql = d.get_cql_duration();
    let d2 = DurationWrapper::from_cql_duration(cql);
    assert_eq!((d2.months, d2.days, d2.nanoseconds), (3, 11, -500));
    let too_big = HostBigInt { sign_bit: false, words: vec![0, 1] };
    assert!(DurationWrapper::new(0, 0, &too_big).is_err());
}

#[test]
fn char_counter_records_the_last_write() {
    let mut c = CharCounter::new();
    c.write_str("12345");
    assert_eq!(c.count(), 5);
    let mut c = CharCounter::new();
    c.write_str("abc");
    c.write_str("defg");
    assert_eq!(c.count(), 4);
}

fn empty_options() -> QueryOptionsObj {
    QueryOptionsObj {
        auto_page: None,
        capture_stack_trace: None,
        consistency: None,
        counter: None,
        fetch_size: None,
        is_idempotent: None,
        keyspace: None,
        logged: None,
        prepare: None,
        read_timeout: None,
        routing_indexes: None,
        routing_names: None,
        serial_consistency: None,
        timestamp: None,
        trace_query: None,
    }
}

#[test]
fn statement_options_are_validated() {
    let wrapper = QueryOptionsWrapper::new(empty_options());
    let resolved = resolve_statement_options(&wrapper.options).ok().expect("empty passes");
    assert!(resolved.consistency.is_none());
    assert!(resolved.timestamp.is_none());

    let mut o = empty_options();
    o.consistency = Some(6);
    o.serial_consistency = Some(9);
    o.fetch_size = Some(100);
    o.timestamp = Some(HostBigInt { sign_bit: true, words: vec![5] });
    let r = resolve_statement_options(&o).ok().expect("all valid");
    assert_eq!(r.consistency, Some(6));
    assert_eq!(r.serial_consistency, Some(9));
    assert_eq!(r.fetch_size, Some(100));
    assert_eq!(r.timestamp, Some(-5));

    let mut o = empty_options();
    o.consistency = Some(11);
    match resolve_statement_options(&o) {
        Err(e) => assert_eq!(e.message().as_str(), "Unknown consistency value: 11"),
        Ok(_) => panic!("eleven is not a consistency"),
    }

    let mut o = empty_options();
    o.serial_consistency = Some(3);
    assert!(resolve_statement_options(&o).is_err());

    let mut o = empty_options();
    o.fetch_size = Some(0);
    assert!(resolve_statement_options(&o).is_err());
}

#[test]
fn result_getters_reflect_the_model() {
    let page = ResultPage {
        columns: vec![
            MetaColumnWrapper {
                ksname: String::from("ks"),
                tablename: String::from("t"),
                name: String::from("a"),
            },
            MetaColumnWrapper {
                ksname: String::from("ks"),
                tablename: String::from("t"),
                name: String::from("b"),
            },
        ],
        column_types: vec![],
        rows: vec![RowWrapper { inner: vec![None] }],
    };
    let result = QueryResultWrapper {
        rows: Some(page),
        warnings: vec![String::from("w1")],
        coordinator: String::from("127.0.0.1:9042"),
        tracing_id: Some(vec![1, 2, 3]),
    };
    assert_eq!(result.get_columns_names(), vec!["a", "b"]);
    assert_eq!(result.get_coordinator(), "127.0.0.1:9042");
    assert_eq!(result.get_warnings(), vec!["w1"]);
    assert_eq!(result.get_trace_id(), Some(vec![1, 2, 3]));
    let specs = result.get_columns_specs();
    assert_eq!(specs.len(), 2);
    assert_eq!(specs[1].name, "b");
    let rows = result.get_rows().expect("a rows result");
    assert_eq!(rows.len(), 1);
    assert!(rows[0].inner[0].is_none());

    let empty = QueryResultWrapper {
        rows: None,
        warnings: vec![],
        coordinator: String::new(),
        tracing_id: None,
    };
    assert!(empty.get_columns_names().is_empty());
    assert_eq!(empty.get_trace_id(), None);
    assert!(empty.get_rows().is_none());
}
