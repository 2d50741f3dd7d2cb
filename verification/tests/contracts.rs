use turbo_base64::{decode, decoded_len, encode, encoded_len, Error};

#[test]
fn lengths_match_documented_values() {
    assert_eq!(encoded_len(5), 8);
    assert_eq!(encoded_len(0), 0);
    assert_eq!(encoded_len(1), 4);
    assert_eq!(encoded_len(3), 4);
    assert_eq!(encoded_len(4), 8);
    assert_eq!(decoded_len(8), 6);
    assert_eq!(decoded_len(0), 0);
    assert_eq!(decoded_len(7), 3);
}

#[test]
fn readme_example() {
    let data = b"Hello, Rust!";
    let mut encoded = vec![0; encoded_len(data.len())];

    let enc_len = encode(data, &mut encoded).unwrap();
    assert_eq!(&encoded[..enc_len], b"SGVsbG8sIFJ1c3Qh");

    let mut decoded = vec![0; decoded_len(encoded.len())];
    let dec_len = decode(&encoded[..enc_len], &mut decoded).unwrap();
    assert_eq!(&decoded[..dec_len], data);
}

#[test]
fn documented_examples() {
    let mut buf = [0u8; 8];
    let len = encode(b"fooba", &mut buf).unwrap();
    assert_eq!(&buf[..len], b"Zm9vYmE=");
    assert_eq!(encode(b"", &mut buf), Ok(0));

    let mut out = [0u8; 6];
    let len = decode(b"Zm9vYmFy", &mut out).unwrap();
    assert_eq!(&out[..len], b"foobar");

    let mut out2 = [0u8; 3];
    let len2 = decode(b"Zm8=", &mut out2).unwrap();
    assert_eq!(&out2[..len2], b"fo");

    let mut buf = [0u8; 8];
    assert_eq!(decode(b"Z", &mut buf), Err(Error::InvalidLength));
    assert_eq!(decode(b"Z=9v", &mut buf), Err(Error::InvalidPadding));
    assert_eq!(decode(b"Zg =", &mut buf), Err(Error::InvalidByte(2, b' ')));
    assert_eq!(decode(b"Zm9vYmFy", &mut []), Err(Error::BufferTooSmall));

    let mut small = [0u8; 2];
    assert_eq!(encode(b"foobar", &mut small), Err(Error::BufferTooSmall));
}

#[test]
fn empty_input_decodes_to_nothing() {
    let mut buf = [7u8; 4];
    assert_eq!(decode(b"", &mut buf), Ok(0));
    assert_eq!(buf, [7u8; 4]);
    assert_eq!(decode(b"", &mut []), Ok(0));
}

#[test]
fn leftover_bits_are_rejected() {
    let mut buf = [0u8; 8];
    assert_eq!(decode(b"Zh==", &mut buf), Err(Error::InvalidPadding));
    assert_eq!(decode(b"Zm9=", &mut buf), Err(Error::InvalidPadding));
    assert_eq!(decode(b"Zg==", &mut buf), Ok(1));
    assert_eq!(decode(b"Zm8=", &mut buf), Ok(2));
}

#[test]
fn more_than_two_pads_are_rejected() {
    let mut buf = [0u8; 8];
    assert_eq!(decode(b"Z===", &mut buf), Err(Error::InvalidPadding));
    assert_eq!(decode(b"====", &mut buf), Err(Error::InvalidPadding));
    assert_eq!(decode(b"Zm9vY===", &mut buf), Err(Error::InvalidPadding));
}

#[test]
fn small_buffer_is_refused_before_characters_are_examined() {
    assert_eq!(decode(b"Z!==", &mut []), Err(Error::BufferTooSmall));
    let mut two = [0u8; 2];
    assert_eq!(decode(b"Zm9v", &mut two), Err(Error::BufferTooSmall));
    let mut exact = [0u8; 3];
    assert_eq!(decode(b"Zm9v", &mut exact), Ok(3));
    assert_eq!(&exact, b"foo");
}

#[test]
fn errors_report_the_first_bad_byte() {
    let mut buf = [0u8; 8];
    assert_eq!(decode(b"Zm9vYmF!", &mut buf), Err(Error::InvalidByte(7, b'!')));
    assert_eq!(decode(b"Zm9v=mFy", &mut buf), Err(Error::InvalidPadding));
    assert_eq!(decode(b"Z-9vYm!y", &mut buf), Err(Error::InvalidByte(1, b'-')));
    assert_eq!(decode(b"Zm9vY=Fy", &mut buf), Err(Error::InvalidPadding));
}

#[test]
fn decoding_error_keeps_the_bytes_past_the_written_groups() {
    let mut buf = [0xEEu8; 8];
    assert_eq!(decode(b"Zm9vYmF!", &mut buf), Err(Error::InvalidByte(7, b'!')));
    assert_eq!(&buf[..3], b"foo");
    assert_eq!(&buf[3..], &[0xEEu8; 5]);

    let mut untouched = [0xEEu8; 4];
    assert_eq!(decode(b"Zm9vY", &mut untouched), Err(Error::InvalidLength));
    assert_eq!(untouched, [0xEEu8; 4]);
}

#[test]
fn encode_leaves_the_rest_of_the_output_alone() {
    let mut buf = [0xAAu8; 12];
    assert_eq!(encode(b"fo", &mut buf), Ok(4));
    assert_eq!(&buf[..4], b"Zm8=");
    assert_eq!(&buf[4..], &[0xAAu8; 8]);

    let mut small = [0xAAu8; 3];
    assert_eq!(encode(b"f", &mut small), Err(Error::BufferTooSmall));
    assert_eq!(small, [0xAAu8; 3]);
}

#[test]
fn decode_then_encode_gives_the_input_back() {
    for input in [&b"Zm9vYmE="[..], b"Zg==", b"AA==", b"+/+/", b"Zm9vYmFy"] {
        let mut dec = vec![0u8; decoded_len(input.len())];
        let n = decode(input, &mut dec).unwrap();
        let mut enc = vec![0u8; encoded_len(n)];
        let m = encode(&dec[..n], &mut enc).unwrap();
        assert_eq!(&enc[..m], input);
    }
}

#[test]
fn every_byte_value_roundtrips_at_every_length() {
    for len in 0..40usize {
        let data: Vec<u8> = (0..len).map(|i| (i * 37 + 11) as u8).collect();
        let mut enc = vec![0u8; encoded_len(len)];
        let enc_len = encode(&data, &mut enc).unwrap();
        assert_eq!(enc_len, encoded_len(len));
        assert!(enc[..enc_len]
            .iter()
            .all(|c| c.is_ascii_alphanumeric() || *c == b'+' || *c == b'/' || *c == b'='));
        let mut dec = vec![0u8; decoded_len(enc_len)];
        let dec_len = decode(&enc[..enc_len], &mut dec).unwrap();
        assert!(dec_len <= decoded_len(enc_len));
        assert_eq!(&dec[..dec_len], &data[..]);
    }
}

#[test]
fn foreign_byte_anywhere_is_rejected() {
    let mut buf = [0u8; 12];
    let base = *b"Zm9vYmFyYg==";
    for i in 0..base.len() {
        let mut corrupt = base;
        corrupt[i] = b'%';
        assert!(decode(&corrupt, &mut buf).is_err());
    }
}

#[test]
fn alphabet_values() {
    let mut buf = [0u8; 3];
    assert_eq!(decode(b"AAAA", &mut buf), Ok(3));
    assert_eq!(buf, [0, 0, 0]);
    assert_eq!(decode(b"////", &mut buf), Ok(3));
    assert_eq!(buf, [0xFF, 0xFF, 0xFF]);
    assert_eq!(decode(b"+++/", &mut buf), Ok(3));
    assert_eq!(buf, [0xFB, 0xEF, 0xBF]);
    let mut enc = [0u8; 4];
    assert_eq!(encode(&[0xFB, 0xEF, 0xBF], &mut enc), Ok(4));
    assert_eq!(&enc, b"+++/");
}
