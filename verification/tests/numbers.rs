use num_bigint::{BigInt, Sign};
use scylla_codec::bignum::{
    bigint_to_i64, decimal_decode, decimal_encode, varint_decode, varint_encode, HostBigInt,
};

fn host(sign_bit: bool, words: Vec<u64>) -> HostBigInt {
    HostBigInt { sign_bit, words }
}

#[test]
fn varint_round_trip_boundary_magnitudes() {
    // Round trip including the two's-complement boundary magnitudes
    // 2^63 and 2^63 - 1 in both sign directions.
    let cases = vec![
        host(false, vec![]),
        host(false, vec![1]),
        host(true, vec![1]),
        host(false, vec![0x7fff_ffff_ffff_ffff]),
        host(true, vec![0x7fff_ffff_ffff_ffff]),
        host(false, vec![0x8000_0000_0000_0000]),
        host(true, vec![0x8000_0000_0000_0000]),
        host(false, vec![0xffff_ffff_ffff_ffff, 0xffff_ffff_ffff_ffff]),
        host(true, vec![0, 1]),
        host(false, vec![128]),
        host(true, vec![128]),
        host(true, vec![129]),
    ];
    for h in cases {
        let bytes = varint_encode(&h);
        let back = varint_decode(&bytes);
        assert_eq!(back.sign_bit, h.sign_bit);
        assert_eq!(back.words, h.words);
    }
}

#[test]
fn varint_bytes_match_the_reference_big_integer() {
    // The verified two's-complement codec agrees with an independent
    // big-integer library on bytes and on digit words.
    let samples: Vec<i128> = vec![
        0,
        1,
        -1,
        127,
        128,
        -128,
        -129,
        255,
        256,
        -256,
        9_223_372_036_854_775_807,
        -9_223_372_036_854_775_808,
        9_223_372_036_854_775_808,
        -9_223_372_036_854_775_809,
        170_141_183_460_469_231_731_687_303_715_884_105_727,
    ];
    for v in samples {
        let reference = BigInt::from(v);
        let wire = reference.to_signed_bytes_be();
        let decoded = varint_decode(&wire);
        let (sign, words) = reference.to_u64_digits();
        assert_eq!(decoded.sign_bit, sign == Sign::Minus);
        assert_eq!(decoded.words, words);
        // Encoding the decoded value gives back the reference bytes.
        let encoded = varint_encode(&decoded);
        assert_eq!(encoded, wire);
    }
}

#[test]
fn varint_decodes_non_minimal_bytes() {
    // Leading sign-extension bytes do not change the value.
    let a = varint_decode(&[0x00, 0x00, 0x05]);
    assert!(!a.sign_bit);
    assert_eq!(a.words, vec![5]);
    let b = varint_decode(&[0xff, 0xff, 0xfb]);
    assert!(b.sign_bit);
    assert_eq!(b.words, vec![5]);
    let zero = varint_decode(&[]);
    assert!(!zero.sign_bit);
    assert_eq!(zero.words, Vec::<u64>::new());
}

#[test]
fn decimal_round_trip() {
    // Encoding then decoding an arbitrary (magnitude, exponent) pair yields
    // the identical pair.
    let cases = vec![
        (0i32, host(false, vec![])),
        (3, host(false, vec![12345])),
        (-7, host(true, vec![0x8000_0000_0000_0000])),
        (i32::MAX, host(false, vec![1, 2, 3])),
        (i32::MIN, host(true, vec![42])),
    ];
    for (exp, mag) in cases {
        let buf = decimal_encode(exp, &mag);
        let (exp2, mag2) = decimal_decode(&buf).ok().expect("well-formed buffer");
        assert_eq!(exp2, exp);
        assert_eq!(mag2.sign_bit, mag.sign_bit);
        assert_eq!(mag2.words, mag.words);
    }
}

#[test]
fn decimal_wire_layout() {
    // Four big-endian exponent bytes, then the magnitude bytes verbatim.
    let buf = decimal_encode(5, &host(false, vec![1]));
    assert_eq!(buf, vec![0, 0, 0, 5, 1]);
    let buf = decimal_encode(-1, &host(true, vec![1]));
    assert_eq!(buf, vec![0xff, 0xff, 0xff, 0xff, 0xff]);
}

#[test]
fn decimal_rejects_short_buffers() {
    // A buffer shorter than the exponent prefix violates the layout.
    assert!(decimal_decode(&[1, 2, 3]).is_err());
    assert!(decimal_decode(&[]).is_err());
    assert!(decimal_decode(&[0, 0, 0, 0]).is_ok());
}

#[test]
fn bigint_to_i64_covers_the_boundaries() {
    assert_eq!(bigint_to_i64(&host(false, vec![]), "overflow").ok(), Some(0));
    assert_eq!(bigint_to_i64(&host(false, vec![7]), "overflow").ok(), Some(7));
    assert_eq!(bigint_to_i64(&host(true, vec![7]), "overflow").ok(), Some(-7));
    assert_eq!(
        bigint_to_i64(&host(false, vec![0x7fff_ffff_ffff_ffff]), "overflow").ok(),
        Some(i64::MAX)
    );
    assert_eq!(
        bigint_to_i64(&host(true, vec![0x8000_0000_0000_0000]), "overflow").ok(),
        Some(i64::MIN)
    );
    let too_big = bigint_to_i64(&host(false, vec![0x8000_0000_0000_0000]), "overflow");
    let e = match too_big {
        Err(e) => e,
        Ok(_) => panic!("value does not fit"),
    };
    assert_eq!(e.message().as_str(), "overflow");
    assert_eq!(e.name().as_str(), "Error");
    assert!(bigint_to_i64(&host(true, vec![0, 1]), "overflow").is_err());
}
