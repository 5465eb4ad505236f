use cryptanalysis::errors::AttackError;
use cryptanalysis::xor::{do_single_xor, do_vigenere, do_xor, hamming_distance};

#[test]
fn hamming_distance_of_sequence_with_itself_is_zero() {
    let a = b"some arbitrary bytes \x00\xff\x7f";
    assert_eq!(hamming_distance(a, a).unwrap(), 0);
}

#[test]
fn hamming_distance_is_symmetric() {
    let a = b"this is a test";
    let b = b"wokka wokka!!!";
    assert_eq!(
        hamming_distance(a, b).unwrap(),
        hamming_distance(b, a).unwrap()
    );
}

#[test]
fn hamming_distance_known_value() {
    let a = b"this is a test";
    let b = b"wokka wokka!!!";
    assert_eq!(hamming_distance(a, b).unwrap(), 37);
}

#[test]
fn hamming_distance_fails_on_length_mismatch() {
    let a = b"short";
    let b = b"a longer sequence";
    assert_eq!(hamming_distance(a, b), Err(AttackError::LengthMismatch));
}

#[test]
fn single_xor_is_an_involution() {
    let x: Vec<u8> = b"involution \x00\x01\xfe\xff test".to_vec();
    for k in [0u8, 1, 0x41, 0xff] {
        let once = do_single_xor(&x, k).unwrap();
        let twice = do_single_xor(&once, k).unwrap();
        assert_eq!(twice, x);
    }
}

#[test]
fn single_xor_known_value() {
    let x: Vec<u8> = vec![0x00, 0x0f, 0xf0, 0xff];
    let out = do_single_xor(&x, 0x0f).unwrap();
    assert_eq!(out, vec![0x0f, 0x00, 0xff, 0xf0]);
}

#[test]
fn do_xor_combines_equal_length_sequences() {
    let left: Vec<u8> = vec![0b1010, 0b0101, 0xff];
    let right: Vec<u8> = vec![0b0110, 0b0101, 0x0f];
    assert_eq!(do_xor(left, right).unwrap(), vec![0b1100, 0x00, 0xf0]);
}

#[test]
fn do_xor_fails_on_length_mismatch() {
    let left: Vec<u8> = vec![1, 2, 3];
    let right: Vec<u8> = vec![1, 2];
    assert_eq!(do_xor(left, right), Err(AttackError::LengthMismatch));
}

#[test]
fn vigenere_with_single_byte_key_equals_single_xor() {
    let x: Vec<u8> = b"repeating key of length one".to_vec();
    let key: Vec<u8> = vec![0x5a];
    assert_eq!(
        do_vigenere(&x, &key).unwrap(),
        do_single_xor(&x, 0x5a).unwrap()
    );
}

#[test]
fn vigenere_round_trip_restores_plaintext() {
    let x: Vec<u8> = b"attack at dawn, repeat, attack at dawn".to_vec();
    let key: Vec<u8> = b"ICEKEY".to_vec();
    let ct = do_vigenere(&x, &key).unwrap();
    assert_ne!(ct, x);
    assert_eq!(do_vigenere(&ct, &key).unwrap(), x);
}

#[test]
fn vigenere_empty_key_with_empty_input_is_empty() {
    let input: Vec<u8> = Vec::new();
    let key: Vec<u8> = Vec::new();
    assert_eq!(do_vigenere(&input, &key).unwrap(), Vec::<u8>::new());
}

#[test]
fn vigenere_empty_key_with_nonempty_input_fails() {
    let input: Vec<u8> = b"bytes".to_vec();
    let key: Vec<u8> = Vec::new();
    assert_eq!(do_vigenere(&input, &key), Err(AttackError::LengthMismatch));
}
