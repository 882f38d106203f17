use scylla_codec::bignum::HostBigInt;
use scylla_codec::clock::{LocalTimeWrapper, NANOS_IN_DAY};

fn from_ns(ns: i64) -> LocalTimeWrapper {
    LocalTimeWrapper::new(&HostBigInt {
        sign_bit: ns < 0,
        words: vec![ns.unsigned_abs()],
    })
    .ok()
    .expect("in range")
}

#[test]
fn nanosecond_round_trip() {
    // For nanosecond-of-day counts, decomposing into clock fields and
    // recombining through the driver value returns the count.
    let samples = vec![
        0i64,
        1,
        999_999_999,
        1_000_000_000,
        59_999_999_999,
        60_000_000_000,
        3_599_999_999_999,
        3_600_000_000_000,
        43_200_000_000_000,
        NANOS_IN_DAY - 1,
    ];
    for t in samples {
        let w = from_ns(t);
        assert_eq!(w.get_cql_time().0, t);
        assert_eq!(
            ((w.hour * 60 + w.minute) * 60 + w.second) * 1_000_000_000 + w.nanosecond,
            t
        );
    }
}

#[test]
fn clock_fields_decompose() {
    let w = from_ns(((13 * 60 + 37) * 60 + 42) * 1_000_000_000 + 123_456_789);
    assert_eq!(w.hour, 13);
    assert_eq!(w.minute, 37);
    assert_eq!(w.second, 42);
    assert_eq!(w.nanosecond, 123_456_789);
    let v = w.get_value();
    assert!(!v.sign_bit);
    assert_eq!(v.words, vec![w.get_cql_time().0 as u64]);
}

#[test]
fn out_of_range_counts_are_rejected() {
    assert!(LocalTimeWrapper::new(&HostBigInt { sign_bit: true, words: vec![1] }).is_err());
    assert!(
        LocalTimeWrapper::new(&HostBigInt { sign_bit: false, words: vec![NANOS_IN_DAY as u64] })
            .is_err()
    );
    assert!(
        LocalTimeWrapper::new(&HostBigInt { sign_bit: false, words: vec![0, 1] }).is_err()
    );
}

#[test]
fn time_text_formats() {
    assert_eq!(from_ns(0).to_format(), "00:00:00");
    assert_eq!(
        from_ns(((13 * 60 + 5) * 60 + 9) * 1_000_000_000).to_format(),
        "13:05:09"
    );
    // Fraction digits keep positional value and lose trailing zeros.
    assert_eq!(from_ns(1).to_format(), "00:00:00.000000001");
    assert_eq!(from_ns(1_000_000).to_format(), "00:00:00.001");
    assert_eq!(from_ns(123_456_789).to_format(), "00:00:00.123456789");
    assert_eq!(from_ns(500_000_000).to_format(), "00:00:00.5");
    assert_eq!(from_ns(NANOS_IN_DAY - 1).to_format(), "23:59:59.999999999");
}

#[test]
fn time_text_parses() {
    let parse = |s: &str| LocalTimeWrapper::from_string(s).ok().map(|h| {
        assert!(!h.sign_bit);
        match h.words.len() {
            0 => 0u64,
            _ => h.words[0],
        }
    });
    assert_eq!(parse("10:30"), Some((10 * 3600 + 30 * 60) * 1_000_000_000));
    assert_eq!(
        parse("01:02:03.5"),
        Some((3600 + 2 * 60 + 3) * 1_000_000_000 + 500_000_000)
    );
    assert_eq!(parse("23:59:59.999999999"), Some(NANOS_IN_DAY as u64 - 1));
    assert_eq!(parse("0:0:0"), Some(0));
    assert_eq!(parse("00:00:00.000000001"), Some(1));
}

#[test]
fn malformed_time_text_is_rejected() {
    for s in [
        "", ":", "10", "24:00", "10:60", "10:30:60", "10:30:00.", "10:30:00.0123456789",
        "1:2:3:4", "aa:bb", "10:30:4a", "-1:00", "10:30:00.5.5",
    ] {
        assert!(LocalTimeWrapper::from_string(s).is_err(), "{s}");
    }
}
