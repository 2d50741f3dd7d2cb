use base64::{prelude::BASE64_STANDARD, Engine};
use rand::{rng, RngExt};
use turbo_base64::{decode, decoded_len, encode, encoded_len};

#[test]
fn ok_utf8_multibyte_parities() {
    let ok_strings = [
        "こんにちは",
        "Hello World!",
        "🦀 Rustacean 🦀",
        "कर्मण्येवाधिकारस्ते मा फलेषु कदाचन",
        "लाभले आम्हास भाग्य बोलतो मराठी",
        "🚀 TurboBase64 Base64 Implementation ⚙️",
        "§ ± ! @ # $ % ^ & * ( ) _ + - = [ ] { } ; ' : \", . / < > ?",
    ];

    for &text in &ok_strings {
        let bytes = text.as_bytes();

        let mut enc = vec![0u8; encoded_len(bytes.len())];
        let enc_len = encode(bytes, &mut enc).unwrap();

        let mut dec_bytes = vec![0u8; decoded_len(enc_len)];
        let dec_len = decode(&enc[..enc_len], &mut dec_bytes).unwrap();

        let dec_string = String::from_utf8(dec_bytes[..dec_len].to_vec()).unwrap();

        assert_eq!(dec_string, text, "UTF-8 integrity broken during roundtrip!");
    }
}

#[test]
fn ok_randomized_utf8_parity() {
    let mut rng = rng();

    for _ in 0..0x400 {
        let len = rng.random_range(1..0x200);
        let text: String = (0..len).map(|_| rng.random::<char>()).collect();
        let bytes = text.as_bytes();

        let mut turbo_encoded = vec![0u8; encoded_len(bytes.len())];
        let enc_len = encode(bytes, &mut turbo_encoded).unwrap();
        let standard_encoded = BASE64_STANDARD.encode(bytes);

        assert_eq!(
            &turbo_encoded[..enc_len],
            standard_encoded.as_bytes(),
            "UTF-8 Encoding parity failure at string length {len}!"
        );

        let mut turbo_decoded = vec![0u8; decoded_len(enc_len)];
        let dec_len = decode(&turbo_encoded[..enc_len], &mut turbo_decoded).unwrap();
        let standard_decoded = BASE64_STANDARD.decode(&standard_encoded).unwrap();

        assert_eq!(
            &turbo_decoded[..dec_len],
            standard_decoded,
            "UTF-8 Decoding parity failure at string length {len}!"
        );
    }
}
