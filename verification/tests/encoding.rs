use conject_macro::encoding::base32;
use conject_macro::encoding::base64::{decode, encode};

#[test]
fn encode_with_data_should_return_encoded_data() {
    let data = "lib1 :: Module";
    let encoded = encode(data.as_bytes());
    let encoded = String::from_utf8(encoded).unwrap();
    assert_eq!(&encoded, "bGliMSA6OiBNb2R1bGU=")
}

#[test]
fn decode_with_encoded_data_should_return_decoded_data() {
    let encoded = "bGliMSA6OiBNb2R1bGU=";
    let decoded = decode(encoded.as_bytes());
    let decoded = String::from_utf8(decoded).unwrap();
    assert_eq!(&decoded, "lib1 :: Module")
}

#[test]
fn encode_with_data_should_return_decodable_string() {
    let cases = vec![
        "A",
        "0",
        "1",
        "One",
        "Hello, World !!!",
        "lib1::Module1",
        "my::very::special_crate_123::Module456<Complex>",
    ];
    for case in cases {
        let data = case;
        let encoded = encode(data.as_bytes());
        let expected_encoded_len = (data.len() + 2) / 3 * 4;
        assert_eq!(encoded.len(), expected_encoded_len);
        let expected_decoded_len = encoded.len() * 3 / 4;
        let decoded = decode(&encoded);
        assert!(
            decoded.len() <= expected_decoded_len,
            "{:?} <= {:?}",
            decoded.len(),
            expected_decoded_len
        );
        let decoded = String::from_utf8(decoded).unwrap();
        assert_eq!(&decoded, data)
    }
}

#[test]
fn base64_encode_of_nothing_is_empty() {
    assert_eq!(encode(b""), Vec::<u8>::new());
    assert_eq!(decode(b""), Vec::<u8>::new());
}

#[test]
fn base64_padding_follows_the_remainder() {
    assert_eq!(encode(b"f"), b"Zg==".to_vec());
    assert_eq!(encode(b"fo"), b"Zm8=".to_vec());
    assert_eq!(encode(b"foo"), b"Zm9v".to_vec());
    assert_eq!(encode(b"foob"), b"Zm9vYg==".to_vec());
    assert_eq!(encode(b"fooba"), b"Zm9vYmE=".to_vec());
    assert_eq!(encode(b"foobar"), b"Zm9vYmFy".to_vec());
}

#[test]
fn base64_uses_plus_and_slash() {
    assert_eq!(encode(&[0xfb, 0xff]), b"+/8=".to_vec());
    assert_eq!(decode(b"+/8="), vec![0xfb, 0xff]);
}

#[test]
fn base64_decode_undoes_encode_on_every_byte() {
    let data: Vec<u8> = (0..=255u8).collect();
    for n in 0..data.len() {
        let part = &data[..n];
        assert_eq!(decode(&encode(part)), part.to_vec());
    }
}

#[test]
fn base32_encodes_without_padding() {
    assert_eq!(base32::encode(b""), Vec::<u8>::new());
    assert_eq!(base32::encode(b"f"), b"MY".to_vec());
    assert_eq!(base32::encode(b"fo"), b"MZXQ".to_vec());
    assert_eq!(base32::encode(b"foo"), b"MZXW6".to_vec());
    assert_eq!(base32::encode(b"foob"), b"MZXW6YQ".to_vec());
    assert_eq!(base32::encode(b"fooba"), b"MZXW6YTB".to_vec());
    assert_eq!(base32::encode(b"foobar"), b"MZXW6YTBOI".to_vec());
}
