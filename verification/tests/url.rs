use akasabi::url::decode_percent;
use akasabi::url::encode_percent;

use std::str;

#[test]
fn test_encode_percent() {
    assert_eq!(
        "%E3%81%82%E3%81%84%E3%81%86%E3%81%88%E3%81%8A",
        str::from_utf8(encode_percent("あいうえお".as_bytes()).as_slice()).unwrap()
    );
    assert_eq!(
        "%E3%81%8B%E3%81%8D%E3%81%8F%E3%81%91%E3%81%93",
        str::from_utf8(encode_percent("かきくけこ".as_bytes()).as_slice()).unwrap()
    );
    assert_eq!(
        "%E3%81%95%E3%81%97%E3%81%99%E3%81%9B%E3%81%9D",
        str::from_utf8(encode_percent("さしすせそ".as_bytes()).as_slice()).unwrap()
    );
    assert_eq!(
        "%E3%81%9F%E3%81%A1%E3%81%A4%E3%81%A6%E3%81%A8",
        str::from_utf8(encode_percent("たちつてと".as_bytes()).as_slice()).unwrap()
    );
    assert_eq!(
        "%E3%81%AA%E3%81%AB%E3%81%AC%E3%81%AD%E3%81%AE",
        str::from_utf8(encode_percent("なにぬねの".as_bytes()).as_slice()).unwrap()
    );
}

#[test]
fn test_decode_percent() {
    assert_eq!(
        "あいうえお",
        str::from_utf8(decode_percent(b"%E3%81%82%E3%81%84%E3%81%86%E3%81%88%E3%81%8A").as_slice())
            .unwrap()
    );
    assert_eq!(
        "かきくけこ",
        str::from_utf8(decode_percent(b"%E3%81%8B%E3%81%8D%E3%81%8F%E3%81%91%E3%81%93").as_slice())
            .unwrap()
    );
    assert_eq!(
        "さしすせそ",
        str::from_utf8(decode_percent(b"%E3%81%95%E3%81%97%E3%81%99%E3%81%9B%E3%81%9D").as_slice())
            .unwrap()
    );
    assert_eq!(
        "たちつてと",
        str::from_utf8(decode_percent(b"%E3%81%9F%E3%81%A1%E3%81%A4%E3%81%A6%E3%81%A8").as_slice())
            .unwrap()
    );
    assert_eq!(
        "なにぬねの",
        str::from_utf8(decode_percent(b"%E3%81%AA%E3%81%AB%E3%81%AC%E3%81%AD%E3%81%AE").as_slice())
            .unwrap()
    );
}

#[test]
fn encode_keeps_unreserved_bytes() {
    assert_eq!(encode_percent(b"AZaz09"), b"AZaz09".to_vec());
    assert_eq!(encode_percent(b""), Vec::<u8>::new());
}

#[test]
fn encode_escapes_everything_else_uppercase() {
    assert_eq!(encode_percent(b" "), b"%20".to_vec());
    assert_eq!(encode_percent(b"/"), b"%2F".to_vec());
    assert_eq!(encode_percent(b"a b"), b"a%20b".to_vec());
    assert_eq!(encode_percent(&[0xff]), b"%FF".to_vec());
    assert_eq!(encode_percent(&[0x00]), b"%00".to_vec());
}

#[test]
fn decode_maps_plus_to_space() {
    assert_eq!(decode_percent(b"a+b"), b"a b".to_vec());
    assert_eq!(decode_percent(b"+"), b" ".to_vec());
}

#[test]
fn decode_hex_is_case_insensitive() {
    assert_eq!(decode_percent(b"%2f"), b"/".to_vec());
    assert_eq!(decode_percent(b"%2F"), b"/".to_vec());
    assert_eq!(decode_percent(b"%Ff"), vec![0xffu8]);
}

#[test]
fn decode_passes_malformed_escapes_through() {
    // a percent not followed by two hex digits passes through literally
    assert_eq!(decode_percent(b"%ZZ"), b"%ZZ".to_vec());
    assert_eq!(decode_percent(b"%4"), b"%4".to_vec());
    assert_eq!(decode_percent(b"%"), b"%".to_vec());
    assert_eq!(decode_percent(b"%%41"), b"%A".to_vec());
    assert_eq!(decode_percent(b"%4 2"), b"%4 2".to_vec());
    assert_eq!(decode_percent(b"%+"), b"% ".to_vec());
    assert_eq!(decode_percent(b"%4%41"), b"%4A".to_vec());
}

#[test]
fn decode_undoes_encode_on_arbitrary_bytes() {
    let samples: Vec<Vec<u8>> = vec![
        b"".to_vec(),
        b"hello world".to_vec(),
        b"a+b%20c&d=e".to_vec(),
        "あいうえお".as_bytes().to_vec(),
        (0u8..=255u8).collect(),
        vec![0, 255, 128, 37, 43, 10, 13],
    ];
    for x in samples {
        assert_eq!(decode_percent(&encode_percent(&x)), x);
    }
}
