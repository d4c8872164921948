use qkd_kme_key_spread::base62;
use qkd_kme_key_spread::share::{Share, SharedSecretType};
use qkd_kme_key_spread::share_wrapper::{decode_wrapper, encode_wrapper, ShareWrapper};

#[test]
fn test_share() {
    const INIT_SHARE_STR: &'static str = "TcYXL5utmLIu1B:us4f1ZVCj5sT8h1jYGYZdRR51T7djc8F3iXYXxxS8i8QSvFlyxzqKkN4FOismWHZke8FFAUZeHbbCHrPW3hMQQdo5UoO5gp03rq5";
    let share1 = Share::from_string(INIT_SHARE_STR, SharedSecretType::Secret).unwrap();
    let share1_str = share1.to_string();
    let share2 = Share::from_string(&share1_str, SharedSecretType::Secret).unwrap();
    assert_eq!(share1, share2);
}

#[test]
fn base62_round_trips() {
    let cases: Vec<Vec<u8>> = vec![
        vec![],
        vec![0],
        vec![1],
        vec![255],
        vec![0, 0, 7],
        vec![42; 100],
        (0..=255u8).collect(),
    ];
    for bytes in cases {
        let enc = base62::encode(&bytes);
        let dec = base62::decode(&enc).unwrap();
        assert_eq!(dec, bytes);
    }
}

#[test]
fn base62_decode_rejects_bad_character() {
    assert_eq!(base62::decode("hello:world"), Err(()));
    assert_eq!(base62::decode("abc def"), Err(()));
}

#[test]
fn base62_decode_rejects_short_value() {
    // A single digit decodes to a value too small to carry the prefix.
    assert_eq!(base62::decode("1"), Err(()));
}

#[test]
fn base62_decode_empty_is_empty() {
    assert_eq!(base62::decode(""), Ok(vec![]));
}

#[test]
fn share_from_string_rejects_bad_forms() {
    // No colon at all.
    assert!(Share::from_string("abcdef", SharedSecretType::Secret).is_err());
    // Two colons.
    assert!(Share::from_string("a:b:c", SharedSecretType::Secret).is_err());
    // Left field does not decode to exactly one byte.
    assert!(Share::from_string(":abc", SharedSecretType::Secret).is_err());
}

#[test]
fn share_to_string_parses_back() {
    let share = Share {
        index: 7,
        data: vec![1, 2, 3, 250],
        shared_secret_type: SharedSecretType::SubShareWrapper,
    };
    let s = share.to_string();
    let back = Share::from_string(&s, SharedSecretType::SubShareWrapper).unwrap();
    assert_eq!(back, share);
}

#[test]
fn wrapper_codec_round_trips() {
    let w = ShareWrapper::new(
        -12345678901234,
        3,
        Share {
            index: 9,
            data: vec![0, 1, 2, 3, 255],
            shared_secret_type: SharedSecretType::Secret,
        },
    );
    let bytes = encode_wrapper(&w);
    let back = decode_wrapper(&bytes).unwrap();
    assert_eq!(back, w);
}

#[test]
fn wrapper_decode_rejects_garbage() {
    // Too short to hold the header.
    assert!(decode_wrapper(&[1, 2, 3]).is_none());
    // Unknown payload-kind tag.
    let mut bytes = encode_wrapper(&ShareWrapper::new(
        1,
        1,
        Share {
            index: 1,
            data: vec![5],
            shared_secret_type: SharedSecretType::Secret,
        },
    ));
    bytes[0] = 9;
    assert!(decode_wrapper(&bytes).is_none());
}
