use scylla_codec::calendar::{DateInvalid, LocalDateWrapper, Ymd};

#[test]
fn test_ymd_new() {
    // correct date
    assert!(Ymd::new(2025, 3, 1).is_ok());
    // invalid month
    let invalid_month_list: [Result<Ymd, DateInvalid>; 3] = [
        Ymd::new(2028, 30, 10),
        Ymd::new(0, 0, 0),
        Ymd::new(12, 15, 13),
    ];
    for record in invalid_month_list {
        assert!(record.is_err());
        assert!(matches!(record, Err(DateInvalid::Month)));
    }

    // invalid day
    let invalid_month_list: [Result<Ymd, DateInvalid>; 3] = [
        Ymd::new(2025, 2, 29),
        Ymd::new(0, 1, 0),
        Ymd::new(2137, 12, 37),
    ];
    for record in invalid_month_list {
        assert!(record.is_err());
        assert!(matches!(record, Err(DateInvalid::Day)));
    }
}

#[test]
fn test_ymd_days() {
    // Values from previous logic in JS.
    let tests: [(Ymd, i32); 19] = [
        // simple examples
        (
            Ymd {
                year: 1970,
                month: 1,
                day: 1,
            },
            0,
        ),
        (
            Ymd {
                year: 2025,
                month: 3,
                day: 1,
            },
            20148,
        ),
        (
            Ymd {
                year: 1975,
                month: 11,
                day: 8,
            },
            2137,
        ),
        (
            Ymd {
                year: 150196,
                month: 12,
                day: 26,
            },
            54138795,
        ),
        (
            Ymd {
                year: 2005,
                month: 4,
                day: 2,
            },
            12875,
        ),
        (
            Ymd {
                year: 44444,
                month: 3,
                day: 1,
            },
            15513370,
        ),
        (
            Ymd {
                year: 21,
                month: 2,
                day: 1,
            },
            -711826,
        ),
        // Negative number of days.
        (
            Ymd {
                year: -3881,
                month: 2,
                day: 4,
            },
            -2137000,
        ),
        (
            Ymd {
                year: 1969,
                month: 12,
                day: 31,
            },
            -1,
        ),
        (
            Ymd {
                year: 0,
                month: 1,
                day: 1,
            },
            -719528,
        ),
        (
            Ymd {
                year: 1968,
                month: 9,
                day: 27,
            },
            -461,
        ),
        (
            Ymd {
                year: 1964,
                month: 2,
                day: 25,
            },
            -2137,
        ),
        (
            Ymd {
                year: 404,
                month: 5,
                day: 3,
            },
            -571847,
        ),
        (
            Ymd {
                year: 944,
                month: 2,
                day: 2,
            },
            -374707,
        ),
        // 29.02 before the epoch (negative and positive year) and after the epoch.
        (
            Ymd {
                year: -4,
                month: 2,
                day: 29,
            },
            -720930,
        ),
        (
            Ymd {
                year: 4,
                month: 2,
                day: 29,
            },
            -718008,
        ),
        (
            Ymd {
                year: 404,
                month: 2,
                day: 29,
            },
            -571911,
        ),
        (
            Ymd {
                year: 2044,
                month: 2,
                day: 29,
            },
            27087,
        ),
        (
            Ymd {
                year: 2048,
                month: 2,
                day: 29,
            },
            28548,
        ),
    ];

    for test in tests {
        assert_eq!(test.0.to_days(), test.1);
        assert_eq!(Ymd::from_days(test.1.into()), Some(test.0));
    }
}

#[test]
fn date_round_trip_spans_leap_boundaries() {
    // Day-count round trip on both sides of the epoch.
    for n in [
        -100_000_000i64,
        -719_528,
        -1,
        0,
        1,
        59,
        60,
        27_086,
        27_087,
        27_088,
        100_000_000,
    ] {
        let d = Ymd::from_days(n).expect("in range");
        assert_eq!(i64::from(d.to_days()), n);
    }
    // Outside the host-representable range there is no structured date.
    assert_eq!(Ymd::from_days(100_000_001), None);
    assert_eq!(Ymd::from_days(-100_000_001), None);
}

#[test]
fn date_wrapper_construction() {
    let w = LocalDateWrapper::new(1, 1, 1970).unwrap();
    assert_eq!(w.value, 0);
    assert!(w.in_date);
    assert_eq!(w.get_date(), Some(Ymd { year: 1970, month: 1, day: 1 }));

    let w = LocalDateWrapper::new(29, 2, 2044).unwrap();
    assert_eq!(w.value, 27087);

    assert!(matches!(
        LocalDateWrapper::new(29, 2, 2045),
        Err(DateInvalid::Day)
    ));
    assert!(matches!(
        LocalDateWrapper::new(1, 13, 2045),
        Err(DateInvalid::Month)
    ));
    assert!(matches!(
        LocalDateWrapper::new(1, 1, 6_000_000),
        Err(DateInvalid::Year)
    ));

    let w = LocalDateWrapper::new_day(20148);
    assert_eq!(w.get_date(), Some(Ymd { year: 2025, month: 3, day: 1 }));
    let far = LocalDateWrapper::new_day(i32::MAX);
    assert_eq!(far.get_date(), None);
    assert!(!far.in_date);
}

#[test]
fn date_cql_round_trip() {
    let w = LocalDateWrapper::new(8, 11, 1975).unwrap();
    let cql = w.get_cql_date();
    assert_eq!(cql.0, 2_147_483_648 + 2137);
    let back = LocalDateWrapper::from_cql_date(cql);
    assert_eq!(back.value, 2137);
    assert_eq!(back.get_date(), Some(Ymd { year: 1975, month: 11, day: 8 }));
}

#[test]
fn date_text_formats() {
    let w = LocalDateWrapper::new(1, 3, 2025).unwrap();
    assert_eq!(w.to_format(), "2025-03-01");
    let w = LocalDateWrapper::new(29, 2, -4).unwrap();
    assert_eq!(w.to_format(), "-0004-02-29");
    let w = LocalDateWrapper::new(9, 12, 31).unwrap();
    assert_eq!(w.to_format(), "0031-12-09");
    let w = LocalDateWrapper::new(26, 12, 150196).unwrap();
    assert_eq!(w.to_format(), "150196-12-26");
}

#[test]
fn date_text_parses() {
    assert_eq!(LocalDateWrapper::from_string("2025-3-1"), Ok(20148));
    assert_eq!(LocalDateWrapper::from_string("2025-03-01"), Ok(20148));
    assert_eq!(LocalDateWrapper::from_string("-4-2-29"), Ok(-720930));
    assert_eq!(LocalDateWrapper::from_string("20148"), Ok(20148));
    assert_eq!(LocalDateWrapper::from_string("-1"), Ok(-1));
    assert_eq!(LocalDateWrapper::from_string("+7"), Ok(7));
}

#[test]
fn malformed_date_text_is_rejected() {
    // Malformed text fails with a format or range error, never a panic.
    assert_eq!(
        LocalDateWrapper::from_string("2025-13-01"),
        Err(DateInvalid::Format)
    );
    assert_eq!(
        LocalDateWrapper::from_string("not-a-date"),
        Err(DateInvalid::Format)
    );
    assert_eq!(
        LocalDateWrapper::from_string("2025-02-29"),
        Err(DateInvalid::Day)
    );
    assert_eq!(LocalDateWrapper::from_string(""), Err(DateInvalid::Format));
    assert_eq!(LocalDateWrapper::from_string("--"), Err(DateInvalid::Format));
    assert_eq!(
        LocalDateWrapper::from_string("1-2-3-4"),
        Err(DateInvalid::Format)
    );
    assert_eq!(
        LocalDateWrapper::from_string("5000000000-1-1"),
        Err(DateInvalid::Format)
    );
    assert_eq!(
        LocalDateWrapper::from_string("9999999-1-1"),
        Err(DateInvalid::Year)
    );
    assert_eq!(
        LocalDateWrapper::from_string("2025-003-01"),
        Err(DateInvalid::Format)
    );
}
