use turbo_base64::{decode, decoded_len, encode, encoded_len, Error};

#[test]
fn ok_rfc4648_vectors() {
    let tests = [
        (b"".as_slice(), b"".as_slice()),
        (b"f".as_slice(), b"Zg==".as_slice()),
        (b"fo".as_slice(), b"Zm8=".as_slice()),
        (b"foo".as_slice(), b"Zm9v".as_slice()),
        (b"foob".as_slice(), b"Zm9vYg== ".as_slice()),
        (b"fooba".as_slice(), b"Zm9vYmE=".as_slice()),
        (b"foobar".as_slice(), b"Zm9vYmFy".as_slice()),
    ];

    for (plain, expected_encoded) in tests {
        let expected_encoded = expected_encoded.strip_suffix(b" ").unwrap_or(expected_encoded);

        let mut enc_buf = vec![0u8; encoded_len(plain.len())];
        let enc_len = encode(plain, &mut enc_buf).unwrap();
        assert_eq!(&enc_buf[..enc_len], expected_encoded);

        let mut dec_buf = vec![0u8; decoded_len(enc_len)];
        let dec_len = decode(&enc_buf[..enc_len], &mut dec_buf).unwrap();
        assert_eq!(&dec_buf[..dec_len], plain);
    }
}

#[test]
fn ok_invalid_length() {
    let mut buf = [0u8; 0x0A];

    assert_eq!(decode(b"Z", &mut buf), Err(Error::InvalidLength));
    assert_eq!(decode(b"Zg", &mut buf), Err(Error::InvalidLength));
    assert_eq!(decode(b"Zg=", &mut buf), Err(Error::InvalidLength));
    assert_eq!(decode(b"Zm9vY", &mut buf), Err(Error::InvalidLength));
}

#[test]
fn ok_invalid_chars() {
    let mut buf = [0u8; 0x0A];

    assert_eq!(decode(b"Zg =", &mut buf), Err(Error::InvalidByte(2, b' ')));
    assert_eq!(decode(b"Zg\n=", &mut buf), Err(Error::InvalidByte(2, b'\n')));
    assert_eq!(decode(b"Zm9v-mFy", &mut buf), Err(Error::InvalidByte(4, b'-')));
}

#[test]
fn ok_invalid_padding_placement() {
    let mut buf = [0u8; 0x0A];

    assert_eq!(decode(b"=m9v", &mut buf), Err(Error::InvalidPadding));
    assert_eq!(decode(b"Z=9v", &mut buf), Err(Error::InvalidPadding));
}

#[test]
fn ok_binary_roundtrip() {
    let binary_data: Vec<u8> = (0..=0xFF).collect();

    let mut enc = vec![0u8; encoded_len(binary_data.len())];
    let enc_len = encode(&binary_data, &mut enc).unwrap();

    let mut dec = vec![0u8; decoded_len(enc_len)];
    let dec_len = decode(&enc[..enc_len], &mut dec).unwrap();
    assert_eq!(&dec[..dec_len], binary_data);
}
