use cryptanalysis::codebook::XorCodebookOracle;
use cryptanalysis::detect::{
    detect_blocksize, detect_ecb, detect_encryption_mode, detect_padding,
    detect_prefix_blocks_count, detect_prefix_len, detect_prefix_plus_suffix_len,
    detect_suffix_len,
};
use cryptanalysis::errors::AttackError;
use cryptanalysis::oracle::{Mode, Oracle};

fn oracle(block_size: usize, prefix: &[u8], suffix: &[u8]) -> XorCodebookOracle {
    let key: Vec<u8> = (0..block_size).map(|i| (i as u8).wrapping_mul(37).wrapping_add(11)).collect();
    XorCodebookOracle { key, prefix: prefix.to_vec(), suffix: suffix.to_vec() }
}

/// A chained-style oracle for the heuristic direction of mode detection:
/// every ciphertext block is distinct, as chaining makes overwhelmingly
/// likely, so no repeated chunk ever appears.
struct DistinctBlocksOracle;

impl Oracle for DistinctBlocksOracle {
    fn spec_encrypt(&self, _data: vstd::seq::Seq<u8>) -> Option<vstd::seq::Seq<u8>> {
        unreachable!()
    }

    fn encrypt(&self, data: &[u8]) -> Result<Vec<u8>, AttackError> {
        let blocks = data.len() / 16 + 1;
        let mut out = Vec::new();
        for b in 0..blocks {
            for _ in 0..16 {
                out.push(b as u8);
            }
        }
        Ok(out)
    }
}

#[test]
fn blocksize_detected_without_hidden_bytes() {
    assert_eq!(detect_blocksize(&oracle(16, b"", b"")).unwrap(), 16);
    assert_eq!(detect_blocksize(&oracle(8, b"", b"")).unwrap(), 8);
}

#[test]
fn blocksize_detected_with_prefix_and_suffix() {
    let o = oracle(16, b"hidden-prefix", b"hidden-suffix-bytes");
    assert_eq!(detect_blocksize(&o).unwrap(), 16);
}

#[test]
fn fixed_codebook_mode_is_reported_as_ecb() {
    let o = oracle(16, b"pre", b"suffix");
    assert_eq!(detect_encryption_mode(&o).unwrap(), Mode::Ecb);
}

#[test]
fn chained_mode_is_reported_as_cbc() {
    assert_eq!(detect_encryption_mode(&DistinctBlocksOracle).unwrap(), Mode::Cbc);
}

#[test]
fn detect_ecb_sees_repeated_chunks() {
    let mut data = vec![7u8; 32];
    data.extend_from_slice(&[1, 2, 3]);
    assert!(detect_ecb(&data));
}

#[test]
fn detect_ecb_rejects_distinct_chunks() {
    let data: Vec<u8> = (0u16..48).map(|i| i as u8).collect();
    assert!(!detect_ecb(&data));
}

#[test]
fn padding_is_detected() {
    assert!(detect_padding(&oracle(16, b"p", b"sfx")).unwrap());
}

#[test]
fn prefix_len_detected_across_boundary_cases() {
    // Lengths 0, 1, block size - 1, block size, and 2 * block size + 3.
    for p_len in [0usize, 1, 15, 16, 35] {
        let prefix: Vec<u8> = (0..p_len).map(|i| i as u8) .collect();
        let o = oracle(16, &prefix, b"tail");
        assert_eq!(detect_prefix_len(&o).unwrap(), p_len, "prefix length {}", p_len);
    }
}

#[test]
fn prefix_len_detected_when_suffix_starts_like_filler() {
    // A suffix opening with the filler bytes 0 and 1 must not fool the
    // stabilization probes.
    let o = oracle(16, b"0123456", &[0u8, 0, 1, 1, 9]);
    assert_eq!(detect_prefix_len(&o).unwrap(), 7);
}

#[test]
fn prefix_blocks_counted() {
    let prefix = [9u8; 35];
    let o = oracle(16, &prefix, b"s");
    assert_eq!(detect_prefix_blocks_count(&o).unwrap(), 2);
    let o2 = oracle(16, b"", b"s");
    assert_eq!(detect_prefix_blocks_count(&o2).unwrap(), 0);
}

#[test]
fn suffix_len_exact_without_prefix() {
    for s_len in [0usize, 1, 15, 16, 35] {
        let suffix: Vec<u8> = (0..s_len).map(|i| (i as u8).wrapping_add(3)).collect();
        let o = oracle(16, b"", &suffix);
        assert_eq!(detect_suffix_len(&o).unwrap(), s_len, "suffix length {}", s_len);
    }
}

#[test]
fn suffix_len_exact_with_prefix_present() {
    let o = oracle(16, b"12345", b"abcdefg");
    assert_eq!(detect_suffix_len(&o).unwrap(), 7);
}

#[test]
fn suffix_len_exact_across_boundary_cases_with_prefix() {
    for (p_len, s_len) in [(1usize, 15usize), (15, 16), (16, 1), (35, 35), (16, 0)] {
        let prefix: Vec<u8> = (0..p_len).map(|i| i as u8).collect();
        let suffix: Vec<u8> = (0..s_len).map(|i| (i as u8).wrapping_add(3)).collect();
        let o = oracle(16, &prefix, &suffix);
        assert_eq!(detect_suffix_len(&o).unwrap(), s_len, "prefix {} suffix {}", p_len, s_len);
    }
}

#[test]
fn prefix_plus_suffix_reports_combined_length() {
    let o = oracle(16, b"12345", b"abcdefg");
    assert_eq!(detect_prefix_plus_suffix_len(&o).unwrap(), 12);
}

/// An oracle whose ciphertext length never reacts to the input: the
/// length-probing detectors must report an indeterminate block size.
struct ConstantLengthOracle;

impl Oracle for ConstantLengthOracle {
    fn spec_encrypt(&self, _data: vstd::seq::Seq<u8>) -> Option<vstd::seq::Seq<u8>> {
        unreachable!()
    }

    fn encrypt(&self, _data: &[u8]) -> Result<Vec<u8>, AttackError> {
        Ok(vec![0u8; 32])
    }
}

#[test]
fn unchanging_length_is_reported_as_indeterminate() {
    assert_eq!(
        detect_blocksize(&ConstantLengthOracle),
        Err(AttackError::IndeterminateBlockSize)
    );
    assert_eq!(
        detect_padding(&ConstantLengthOracle),
        Err(AttackError::IndeterminateBlockSize)
    );
    assert_eq!(
        detect_prefix_plus_suffix_len(&ConstantLengthOracle),
        Err(AttackError::IndeterminateBlockSize)
    );
}

/// An oracle whose ciphertext length first changes only after well over a
/// block of filler: block-size detection still sees the jump, but the
/// combined-length probe must report it rather than return a value.
struct LateJumpOracle;

impl Oracle for LateJumpOracle {
    fn spec_encrypt(&self, _data: vstd::seq::Seq<u8>) -> Option<vstd::seq::Seq<u8>> {
        unreachable!()
    }

    fn encrypt(&self, data: &[u8]) -> Result<Vec<u8>, AttackError> {
        if data.len() < 100 {
            Ok(vec![0u8; 32])
        } else {
            Ok(vec![0u8; 48])
        }
    }
}

#[test]
fn length_change_past_one_block_is_reported() {
    assert_eq!(detect_blocksize(&LateJumpOracle).unwrap(), 16);
    assert_eq!(
        detect_prefix_plus_suffix_len(&LateJumpOracle),
        Err(AttackError::IndeterminateBlockSize)
    );
}
