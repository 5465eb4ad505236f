use cryptanalysis::errors::AttackError;
use cryptanalysis::freq::{build_charstat_dict, crack_single_xor, crack_vigenere, guess_key_size};
use cryptanalysis::xor::{do_single_xor, do_vigenere};

#[test]
fn charstat_dict_scales_counts_to_parts_per_million() {
    let dict = build_charstat_dict(b"aab");
    assert_eq!(dict.len(), 256);
    assert_eq!(dict[b'a' as usize], 2_000_000 / 3);
    assert_eq!(dict[b'b' as usize], 1_000_000 / 3);
    assert_eq!(dict[b'c' as usize], 0);
    assert_eq!(dict[0], 0);
}

#[test]
fn crack_single_xor_recovers_the_key() {
    let corpus = b"the quick brown fox jumps over the lazy dog and runs on and on";
    let dict = build_charstat_dict(corpus);
    let plaintext: Vec<u8> = corpus.to_vec();
    let key = 0x3a;
    let ct = do_single_xor(&plaintext, key).unwrap();
    let (found, score) = crack_single_xor(&ct, &dict).unwrap();
    assert_eq!(found, key);
    assert!(score > 0);
}

#[test]
fn crack_single_xor_all_zero_scores_keeps_lowest_key() {
    let dict: Vec<u64> = vec![0; 256];
    let input: Vec<u8> = b"anything at all".to_vec();
    let (found, score) = crack_single_xor(&input, &dict).unwrap();
    assert_eq!(found, 0);
    assert_eq!(score, 0);
}

fn periodic_ciphertext() -> Vec<u8> {
    // A ciphertext with exact period 7 and seven distinct byte values: the
    // chunk distance is zero at size 7 and positive at every smaller size.
    (0..210).map(|i| (i % 7) as u8).collect()
}

#[test]
fn guess_key_size_finds_exact_period() {
    let ct = periodic_ciphertext();
    assert_eq!(guess_key_size(&ct).unwrap(), 7);
}

#[test]
fn crack_vigenere_matches_per_stream_single_xor() {
    let corpus = b"the quick brown fox jumps over the lazy dog and runs on and on";
    let dict = build_charstat_dict(corpus);
    let ct = periodic_ciphertext();
    let key = crack_vigenere(&ct, &dict).unwrap();
    let key_size = guess_key_size(&ct).unwrap();
    assert_eq!(key.len(), key_size);
    for (i, key_byte) in key.iter().enumerate() {
        let stream: Vec<u8> = ct.iter().skip(i).step_by(key_size).copied().collect();
        let (expected, _) = crack_single_xor(&stream, &dict).unwrap();
        assert_eq!(*key_byte, expected);
    }
}

#[test]
fn vigenere_crack_round_trip_on_english_plaintext() {
    let corpus = b"it is a truth universally acknowledged that a single man in \
possession of a good fortune must be in want of a wife however little known \
the feelings or views of such a man may be on his first entering a \
neighbourhood this truth is so well fixed in the minds of the surrounding \
families that he is considered the rightful property of some one or other of \
their daughters";
    let dict = build_charstat_dict(corpus);
    let plaintext: Vec<u8> = corpus.to_vec();
    let key: Vec<u8> = b"KEY".to_vec();
    let ct = do_vigenere(&plaintext, &key).unwrap();
    let found = crack_vigenere(&ct, &dict).unwrap();
    let recovered = do_vigenere(&ct, &found).unwrap();
    assert_eq!(recovered, plaintext);
}

#[test]
fn guess_key_size_rejects_short_input() {
    let short = vec![0u8; 155];
    assert_eq!(guess_key_size(&short), Err(AttackError::LengthMismatch));
}

#[test]
fn crack_vigenere_rejects_short_input() {
    let dict: Vec<u64> = vec![0; 256];
    let short = vec![0u8; 10];
    assert_eq!(crack_vigenere(&short, &dict), Err(AttackError::LengthMismatch));
}
