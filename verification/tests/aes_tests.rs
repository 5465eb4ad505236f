use cryptanalysis::aes::decrypt_aes_128_ecb;

#[test]
fn aes_ecb_round_trip_with_openssl_encrypt() {
    let key = b"0123456789ABCDEF";
    let plaintext = b"YELLOW SUBMARINEyellow submarine and a tail";
    let cipher = openssl::symm::Cipher::aes_128_ecb();
    let ct = openssl::symm::encrypt(cipher, key, None, plaintext).unwrap();
    assert_ne!(&ct[..], &plaintext[..]);
    let pt = decrypt_aes_128_ecb(&ct, key).unwrap();
    assert_eq!(pt, plaintext.to_vec());
}

#[test]
fn aes_ecb_decrypt_fails_on_bad_key_length() {
    let ct = vec![0u8; 16];
    assert!(decrypt_aes_128_ecb(&ct, b"short").is_err());
}
