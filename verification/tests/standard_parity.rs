use base64::prelude::{Engine, BASE64_STANDARD};
use rand::{rng, RngExt};
use turbo_base64::{decode, decoded_len, encode, encoded_len};

#[test]
fn ok_randomized_encoding_and_decoding_parity() {
    let mut rng = rng();

    for _ in 0..0x1000 {
        let len = rng.random_range(0..0x2000);
        let mut original_data = vec![0u8; len];
        rng.fill(&mut original_data[..]);

        let mut turbo_encoded = vec![0u8; encoded_len(original_data.len())];
        let enc_len = encode(&original_data, &mut turbo_encoded).unwrap();
        let standard_encoded = BASE64_STANDARD.encode(&original_data);

        assert_eq!(
            &turbo_encoded[..enc_len],
            standard_encoded.as_bytes(),
            "Encoding parity failure at size {len}!"
        );

        let mut turbo_decoded = vec![0u8; decoded_len(enc_len)];
        let dec_len = decode(&turbo_encoded[..enc_len], &mut turbo_decoded).unwrap();
        let standard_decoded = BASE64_STANDARD.decode(&standard_encoded).unwrap();

        assert_eq!(
            &turbo_decoded[..dec_len],
            standard_decoded,
            "Decoding parity failure at size {len}!"
        );
    }
}

#[test]
fn ok_randomized_error_rejection_parity() {
    let mut rng = rng();
    let mut buf = vec![0u8; 0x2000];

    for _ in 0..0x400 {
        let len = rng.random_range(1..0x200) * 4;

        let temp_data = vec![0u8; decoded_len(len)];
        let mut valid_base64_string = vec![0u8; encoded_len(temp_data.len())];
        let enc_len = encode(&temp_data, &mut valid_base64_string).unwrap();
        valid_base64_string.truncate(enc_len);

        if valid_base64_string.is_empty() {
            continue;
        }

        let corrupt_index = rng.random_range(0..valid_base64_string.len());
        valid_base64_string[corrupt_index] = b'%';

        let turbo_result = decode(&valid_base64_string, &mut buf);
        let standard_result = BASE64_STANDARD.decode(&valid_base64_string);

        assert!(
            turbo_result.is_err(),
            "TurboBase64 incorrectly accepted corrupt base64 containing '%' at index {corrupt_index}"
        );
        assert!(
            standard_result.is_err(),
            "Standard crate incorrectly accepted corrupt base64"
        );
    }
}
