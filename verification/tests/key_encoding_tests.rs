use field_index::encodable::Encodable;
use field_index::key_encoding::decode_f64_key_ascending;
use field_index::key_encoding::decode_i64_key_ascending;
use field_index::key_encoding::decode_u128_key_ascending;
use field_index::key_encoding::encode_f64_key_ascending;
use field_index::key_encoding::encode_i64_key_ascending;
use field_index::key_encoding::encode_u128_key_ascending;
use field_index::types::FloatPayloadType;
use field_index::types::KeyOrdering;

fn float(v: f64) -> FloatPayloadType {
    FloatPayloadType::from_bits(v.to_bits())
}

#[test]
fn i64_key_is_sign_flipped_big_endian() {
    assert_eq!(
        encode_i64_key_ascending(0, 1),
        vec![0x80, 0, 0, 0, 0, 0, 0, 0, 0, 0, 0, 1]
    );
    assert_eq!(
        encode_i64_key_ascending(-1, 0x01020304),
        vec![0x7f, 0xff, 0xff, 0xff, 0xff, 0xff, 0xff, 0xff, 1, 2, 3, 4]
    );
    assert_eq!(
        encode_i64_key_ascending(i64::MIN, 0),
        vec![0, 0, 0, 0, 0, 0, 0, 0, 0, 0, 0, 0]
    );
    assert_eq!(
        encode_i64_key_ascending(i64::MAX, u32::MAX),
        vec![0xff; 12]
    );
}

#[test]
fn i64_key_round_trips() {
    for &value in &[i64::MIN, -1_000_000, -1, 0, 1, 42, i64::MAX] {
        for &id in &[0u32, 1, 77, u32::MAX] {
            let key = encode_i64_key_ascending(value, id);
            assert_eq!(key.len(), 12);
            assert_eq!(decode_i64_key_ascending(&key), (id, value));
        }
    }
}

#[test]
fn i64_keys_sort_as_pairs() {
    let pairs = [
        (i64::MIN, 0u32),
        (-5, 3),
        (-5, 4),
        (-1, u32::MAX),
        (0, 0),
        (0, 1),
        (7, 0),
        (i64::MAX, 9),
    ];
    for a in &pairs {
        for b in &pairs {
            let ka = encode_i64_key_ascending(a.0, a.1);
            let kb = encode_i64_key_ascending(b.0, b.1);
            assert_eq!(ka < kb, a < b);
        }
    }
}

#[test]
fn u128_key_is_big_endian() {
    let key = encode_u128_key_ascending(0x0102030405060708090a0b0c0d0e0f10, 0x11121314);
    assert_eq!(
        key,
        vec![1, 2, 3, 4, 5, 6, 7, 8, 9, 10, 11, 12, 13, 14, 15, 16, 0x11, 0x12, 0x13, 0x14]
    );
    assert_eq!(
        decode_u128_key_ascending(&key),
        (0x11121314, 0x0102030405060708090a0b0c0d0e0f10)
    );
}

#[test]
fn u128_keys_sort_as_pairs() {
    let pairs = [(0u128, 0u32), (0, 5), (1, 0), (u64::MAX as u128, 1), (u128::MAX, 0)];
    for a in &pairs {
        for b in &pairs {
            let ka = encode_u128_key_ascending(a.0, a.1);
            let kb = encode_u128_key_ascending(b.0, b.1);
            assert_eq!(ka < kb, a < b);
            assert_eq!(decode_u128_key_ascending(&ka), (a.1, a.0));
        }
    }
}

#[test]
fn f64_key_flips_sign_or_inverts() {
    // 1.0 is 0x3ff0_0000_0000_0000: sign bit flipped.
    assert_eq!(
        encode_f64_key_ascending(float(1.0), 2),
        vec![0xbf, 0xf0, 0, 0, 0, 0, 0, 0, 0, 0, 0, 2]
    );
    // -1.0 is 0xbff0_0000_0000_0000: all bits inverted.
    assert_eq!(
        encode_f64_key_ascending(float(-1.0), 2),
        vec![0x40, 0x0f, 0xff, 0xff, 0xff, 0xff, 0xff, 0xff, 0, 0, 0, 2]
    );
    // every NaN takes the lowest position
    assert_eq!(
        encode_f64_key_ascending(float(f64::NAN), 3),
        vec![0, 0, 0, 0, 0, 0, 0, 0, 0, 0, 0, 3]
    );
}

#[test]
fn f64_key_round_trips_bit_for_bit() {
    for &value in &[
        f64::NEG_INFINITY,
        -1.5e300,
        -1.0,
        -0.0,
        0.0,
        f64::MIN_POSITIVE,
        1.0,
        3.25,
        f64::MAX,
        f64::INFINITY,
    ] {
        let key = encode_f64_key_ascending(float(value), 9);
        let (id, back) = decode_f64_key_ascending(&key);
        assert_eq!(id, 9);
        assert_eq!(back.to_bits(), value.to_bits());
    }
    let (id, back) = decode_f64_key_ascending(&encode_f64_key_ascending(float(f64::NAN), 4));
    assert_eq!(id, 4);
    assert!(f64::from_bits(back.to_bits()).is_nan());
    assert!(back.is_nan());
}

#[test]
fn f64_keys_sort_as_floats_with_nan_first() {
    let values = [
        f64::NAN,
        f64::NEG_INFINITY,
        -2.5,
        -1.0,
        -f64::MIN_POSITIVE,
        0.0,
        f64::MIN_POSITIVE,
        1.0,
        2.5,
        f64::INFINITY,
    ];
    for (i, a) in values.iter().enumerate() {
        for (j, b) in values.iter().enumerate() {
            let ka = encode_f64_key_ascending(float(*a), 0);
            let kb = encode_f64_key_ascending(float(*b), 0);
            assert_eq!(ka < kb, i < j, "{} vs {}", a, b);
            let expected = if i < j {
                KeyOrdering::Less
            } else if i == j {
                KeyOrdering::Equal
            } else {
                KeyOrdering::Greater
            };
            assert_eq!(float(*a).cmp_encoded(&float(*b)), expected);
        }
    }
}

#[test]
fn nans_compare_equal_and_below_everything() {
    let quiet = float(f64::NAN);
    let other = FloatPayloadType::from_bits(0xfff8_0000_0000_0001);
    assert!(other.is_nan());
    assert_eq!(quiet.cmp_encoded(&other), KeyOrdering::Equal);
    assert_eq!(other.cmp_encoded(&float(f64::NEG_INFINITY)), KeyOrdering::Less);
    assert_eq!(float(f64::NEG_INFINITY).cmp_encoded(&quiet), KeyOrdering::Greater);
    assert!(!float(f64::INFINITY).is_nan());
}

#[test]
fn trait_codec_agrees_with_functions() {
    assert_eq!(5i64.encode_key(7), encode_i64_key_ascending(5, 7));
    assert_eq!(<i64 as Encodable>::decode_key(&5i64.encode_key(7)), (7, 5));
    assert_eq!(5u128.encode_key(7), encode_u128_key_ascending(5, 7));
    assert_eq!(<u128 as Encodable>::decode_key(&5u128.encode_key(7)), (7, 5));
    assert_eq!(float(2.0).encode_key(1), encode_f64_key_ascending(float(2.0), 1));
    assert_eq!(<i64 as Encodable>::value_len(), 8);
    assert_eq!(<u128 as Encodable>::value_len(), 16);
    assert_eq!(<FloatPayloadType as Encodable>::value_len(), 8);
    assert_eq!(3i64.cmp_encoded(&4), KeyOrdering::Less);
    assert_eq!(4u128.cmp_encoded(&4), KeyOrdering::Equal);
    assert_eq!((-4i64).cmp_encoded(&-5), KeyOrdering::Greater);
}
