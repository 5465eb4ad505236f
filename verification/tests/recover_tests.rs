use cryptanalysis::codebook::XorCodebookOracle;
use cryptanalysis::errors::AttackError;
use cryptanalysis::oracle::Oracle;
use cryptanalysis::recover::{build_dict, find_char_in_dict, recover_ecb_suffix};

fn oracle_with_suffix(block_size: usize, suffix: &[u8]) -> XorCodebookOracle {
    let key: Vec<u8> = (0..block_size).map(|i| (i as u8).wrapping_mul(91).wrapping_add(7)).collect();
    XorCodebookOracle { key, prefix: Vec::new(), suffix: suffix.to_vec() }
}

#[test]
fn recovers_empty_suffix() {
    let o = oracle_with_suffix(16, b"");
    assert_eq!(recover_ecb_suffix(&o).unwrap(), b"".to_vec());
}

#[test]
fn recovers_one_byte_suffix() {
    let o = oracle_with_suffix(16, b"Z");
    assert_eq!(recover_ecb_suffix(&o).unwrap(), b"Z".to_vec());
}

#[test]
fn recovers_block_aligned_suffix() {
    let o = oracle_with_suffix(16, b"0123456789abcdef");
    assert_eq!(recover_ecb_suffix(&o).unwrap(), b"0123456789abcdef".to_vec());
}

#[test]
fn recovers_unaligned_multi_block_suffix() {
    let suffix = b"a somewhat longer hidden suffix!?";
    let o = oracle_with_suffix(16, suffix);
    assert_eq!(recover_ecb_suffix(&o).unwrap(), suffix.to_vec());
}

#[test]
fn recovers_suffix_with_small_block_size() {
    let suffix = b"tiny blocks";
    let o = oracle_with_suffix(8, suffix);
    assert_eq!(recover_ecb_suffix(&o).unwrap(), suffix.to_vec());
}

#[test]
fn end_to_end_fixed_suffix_recovery() {
    let o = oracle_with_suffix(16, b"SECRET-SUFFIX");
    assert_eq!(recover_ecb_suffix(&o).unwrap(), b"SECRET-SUFFIX".to_vec());
}

#[test]
fn dictionary_entries_are_first_blocks_of_probe_queries() {
    let o = oracle_with_suffix(16, b"xyz");
    let known: Vec<u8> = b"x".to_vec();
    let dict = build_dict(&known, &o, 16).unwrap();
    assert_eq!(dict.len(), 256);
    for c in 0..=255u8 {
        // filler, known tail, candidate, squeezed into one block
        let mut probe = vec![65u8; 16];
        probe.extend_from_slice(&known);
        probe.push(c);
        let block: Vec<u8> = probe[probe.len() - 16..].to_vec();
        let ct = o.encrypt(&block).unwrap();
        assert_eq!(dict[c as usize], ct[..16].to_vec());
    }
}

#[test]
fn find_char_returns_first_matching_entry() {
    let mut dict: Vec<Vec<u8>> = (0..256).map(|i| vec![i as u8, 0, 0]).collect();
    dict[200] = vec![77, 1, 2];
    dict[210] = vec![77, 1, 2];
    assert_eq!(find_char_in_dict(&dict, &[77, 1, 2]).unwrap(), 200);
    assert_eq!(find_char_in_dict(&dict, &[4, 0, 0]).unwrap(), 4);
}

#[test]
fn find_char_reports_missing_match() {
    let dict: Vec<Vec<u8>> = (0..256).map(|i| vec![i as u8, 9]).collect();
    assert_eq!(
        find_char_in_dict(&dict, &[4, 8]),
        Err(AttackError::NoDictionaryMatch)
    );
}
