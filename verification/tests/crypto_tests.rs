use throttlegear::crypto::{
    base64_decode, base64_encode, decrypt_aes_256_cbc, encrypt_aes_256_cbc, get_key_and_iv,
};

#[test]
fn test_get_key_and_iv() {
    let (key, iv) = get_key_and_iv("G614PR", "1.0.5", "NB");
    assert_eq!(key.len(), 32);
    assert_eq!(iv.len(), 16);
    assert_eq!(key[0], 0);
    assert_eq!(&key[1..7], b"G614PR");

    let (key_dt, _) = get_key_and_iv("ModelDT", "1.0.5", "DT");
    assert_eq!(key_dt[0], 1);
}

#[test]
fn test_aes_encrypt_decrypt_roundtrip() {
    let plaintext = b"This is a test plaintext message for AES 256 CBC!";
    let key = vec![1u8; 32];
    let iv = vec![2u8; 16];

    let ciphertext = encrypt_aes_256_cbc(plaintext, &key, &iv).unwrap();
    assert_ne!(ciphertext, plaintext);

    let decrypted = decrypt_aes_256_cbc(&ciphertext, &key, &iv).unwrap();
    assert_eq!(decrypted, plaintext);
}

#[test]
fn test_base64() {
    let original = b"Hello, World!";
    let encoded = base64_encode(original);
    assert_eq!(encoded, "SGVsbG8sIFdvcmxkIQ==");

    let decoded = base64_decode(&encoded).unwrap();
    assert_eq!(decoded, original);
}

#[test]
fn iv_holds_the_version_components_little_endian() {
    let (_, iv) = get_key_and_iv("G614PR", "1.0.5", "NB");
    assert_eq!(iv, vec![1, 0, 0, 0, 0, 0, 0, 0, 5, 0, 0, 0, 255, 255, 255, 255]);

    let (_, iv) = get_key_and_iv("G614PR", "2.3.4.5", "NB");
    assert_eq!(iv, vec![2, 0, 0, 0, 3, 0, 0, 0, 4, 0, 0, 0, 5, 0, 0, 0]);

    // Missing or unparsable components count as -1.
    let (_, iv) = get_key_and_iv("G614PR", "x", "NB");
    assert_eq!(iv, vec![255; 16]);
    let (_, iv) = get_key_and_iv("G614PR", "7", "NB");
    assert_eq!(iv, vec![7, 0, 0, 0, 255, 255, 255, 255, 255, 255, 255, 255, 255, 255, 255, 255]);
}

#[test]
fn key_is_type_byte_then_model_zero_padded() {
    let (key, _) = get_key_and_iv("AB", "1.0", "NB");
    let mut expected = vec![0u8; 32];
    expected[1] = b'A';
    expected[2] = b'B';
    assert_eq!(key, expected);

    // A long model name is cut to 31 bytes.
    let long = "ABCDEFGHIJKLMNOPQRSTUVWXYZ0123456789";
    let (key, _) = get_key_and_iv(long, "1.0", "DT");
    assert_eq!(key.len(), 32);
    assert_eq!(key[0], 1);
    assert_eq!(&key[1..], &long.as_bytes()[..31]);
}

#[test]
fn base64_known_values() {
    assert_eq!(base64_encode(b""), "");
    assert_eq!(base64_encode(b"f"), "Zg==");
    assert_eq!(base64_encode(b"fo"), "Zm8=");
    assert_eq!(base64_encode(b"foo"), "Zm9v");
    assert_eq!(base64_encode(b"foobar"), "Zm9vYmFy");
    assert_eq!(base64_encode(&[0xff, 0xfe, 0xfd]), "//79");
}

#[test]
fn base64_roundtrip_all_byte_values() {
    let data: Vec<u8> = (0u8..=255).collect();
    for n in 0..data.len() {
        let encoded = base64_encode(&data[..n]);
        assert_eq!(base64_decode(&encoded).unwrap(), data[..n].to_vec());
    }
}

#[test]
fn base64_decode_skips_whitespace() {
    assert_eq!(base64_decode(" SGVs\nbG8s\r\nIFdv cmxk\tIQ== ").unwrap(), b"Hello, World!".to_vec());
}

#[test]
fn base64_decode_rejects_bad_length() {
    assert_eq!(base64_decode("SGVsbG8"), Err("Invalid base64 length".to_string()));
    assert_eq!(base64_decode("  \n "), Ok(Vec::new()));
}

#[test]
fn aes_decrypt_with_wrong_key_fails_or_differs() {
    let key = vec![7u8; 32];
    let iv = vec![9u8; 16];
    let ciphertext = encrypt_aes_256_cbc(b"payload", &key, &iv).unwrap();
    assert_eq!(ciphertext.len(), 16);
    assert_ne!(ciphertext, b"payload".to_vec());
    let other = vec![8u8; 32];
    match decrypt_aes_256_cbc(&ciphertext, &other, &iv) {
        Ok(p) => assert_ne!(p, b"payload".to_vec()),
        Err(e) => assert_eq!(e, "EVP_DecryptFinal_ex failed (probably bad padding or key)"),
    }
}

#[test]
fn aes_decrypt_of_truncated_ciphertext_fails() {
    let key = vec![1u8; 32];
    let iv = vec![2u8; 16];
    let r = decrypt_aes_256_cbc(&[1, 2, 3], &key, &iv);
    assert_eq!(
        r,
        Err("EVP_DecryptFinal_ex failed (probably bad padding or key)".to_string())
    );
}

#[test]
fn ciphertext_is_padded_to_whole_blocks() {
    let key = vec![1u8; 32];
    let iv = vec![2u8; 16];
    let c = encrypt_aes_256_cbc(b"This is a test plaintext message for AES 256 CBC!", &key, &iv).unwrap();
    assert_eq!(c.len(), 64);
    assert_eq!(encrypt_aes_256_cbc(&[0u8; 16], &key, &iv).unwrap().len(), 32);
    assert_eq!(encrypt_aes_256_cbc(b"", &key, &iv).unwrap().len(), 16);
}

#[test]
fn aes_uses_the_first_32_key_bytes_and_16_iv_bytes() {
    let mut key: Vec<u8> = (0u8..40).collect();
    let mut iv: Vec<u8> = (100u8..120).collect();
    let long = encrypt_aes_256_cbc(b"prefix test", &key, &iv).unwrap();
    key.truncate(32);
    iv.truncate(16);
    let exact = encrypt_aes_256_cbc(b"prefix test", &key, &iv).unwrap();
    assert_eq!(long, exact);
    let mut key2 = key.clone();
    key2.extend([9u8; 8]);
    let mut iv2 = iv.clone();
    iv2.extend([7u8; 3]);
    assert_eq!(decrypt_aes_256_cbc(&exact, &key2, &iv2).unwrap(), b"prefix test".to_vec());
}

#[test]
fn base64_decoding_ignores_whitespace() {
    for s in ["SGVs bG8=", " \n\tSGVsbG8=\r\n", "SG Vs\nbG8"] {
        let clean: String = s.chars().filter(|c| !c.is_whitespace()).collect();
        assert_eq!(base64_decode(s), base64_decode(&clean));
    }
    assert_eq!(base64_decode("SG Vs\nbG8"), Err("Invalid base64 length".to_string()));
    assert_eq!(base64_decode(" \t"), Ok(vec![]));
}
