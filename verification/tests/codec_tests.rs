use tsdb::TsError;
use tsdb::payload::Measurement;
use tsdb::payload::deserialize;
use tsdb::payload::serialize;
use tsdb::timekey::decode_key;
use tsdb::timekey::encode_key;

#[test]
fn payload_round_trip_concrete() {
    let m = Measurement {
        name: b"sensor-a".to_vec(),
        value_bits: (0.1f64).to_bits(),
        creation_date: 1234567890,
    };
    let bytes = serialize(&m);
    let back = deserialize(&bytes).unwrap();
    assert_eq!(back, m);
}

#[test]
fn payload_round_trip_empty_name() {
    let m = Measurement { name: Vec::new(), value_bits: 0, creation_date: -1 };
    let bytes = serialize(&m);
    assert_eq!(bytes.len(), 24);
    let back = deserialize(&bytes).unwrap();
    assert_eq!(back, m);
}

#[test]
fn payload_layout_matches_reference_codec() {
    // The layout agrees byte for byte with the little-endian fixed-width
    // encoding that bincode gives a (name, value, timestamp) triple.
    let value = 0.1f64;
    let reference = bincode::serialize(&(b"test".to_vec(), value, 77i64)).unwrap();
    let m = Measurement {
        name: b"test".to_vec(),
        value_bits: value.to_bits(),
        creation_date: 77,
    };
    assert_eq!(serialize(&m), reference);
}

#[test]
fn payload_rejects_garbage() {
    assert_eq!(deserialize(&Vec::new()), Err(TsError::DecodeError));
    assert_eq!(deserialize(&b"short".to_vec()), Err(TsError::DecodeError));
    let m = Measurement { name: b"x".to_vec(), value_bits: 5, creation_date: 6 };
    let mut bytes = serialize(&m);
    bytes.push(0);
    assert!(deserialize(&bytes).is_err(), "trailing byte must be rejected");
    let mut wrong_len = serialize(&m);
    wrong_len[0] = 200;
    assert!(deserialize(&wrong_len).is_err(), "wrong name length must be rejected");
}

#[test]
fn encode_key_is_decimal_text() {
    assert_eq!(encode_key(1234567890), b"1234567890".to_vec());
    assert_eq!(encode_key(0), b"0".to_vec());
    assert_eq!(encode_key(7), b"7".to_vec());
    assert_eq!(encode_key(-42), b"-42".to_vec());
}

#[test]
fn decode_key_inverts_encode_key() {
    for ts in [0i64, 1, 9, 10, 99, 1234567890, -1, -10, i64::MAX, i64::MIN] {
        let k = encode_key(ts);
        assert_eq!(decode_key(&k), Ok(ts));
    }
}

#[test]
fn decode_key_rejects_foreign_keys() {
    for bad in [
        &b""[..],
        b"abc",
        b"007",
        b"-0",
        b"+5",
        b"12x",
        b"-",
        b" 12",
        b"92233720368547758080",
        b"9223372036854775808",
        b"-9223372036854775809",
    ] {
        assert_eq!(decode_key(&bad.to_vec()), Err(TsError::DecodeError), "{:?}", bad);
    }
    assert_eq!(decode_key(&b"9223372036854775807".to_vec()), Ok(i64::MAX));
    assert_eq!(decode_key(&b"-9223372036854775808".to_vec()), Ok(i64::MIN));
}

#[test]
fn key_ordering_within_equal_digit_length() {
    let pairs = [(1000000000i64, 1000000001i64), (1111111111, 2222222222), (10, 99)];
    for (t1, t2) in pairs {
        let k1 = encode_key(t1);
        let k2 = encode_key(t2);
        assert!(k1 < k2, "{} vs {}", t1, t2);
    }
}
