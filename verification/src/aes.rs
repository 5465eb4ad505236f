use vstd::prelude::*;

use crate::errors::AttackError;

verus! {

/// What AES-128-ECB decryption (with standard block unpadding) returns for
/// a given ciphertext and key. The mapping is a pure function of its
/// arguments, far too large to write out; the wrapper below pins results to
/// this name.
pub uninterp spec fn aes128_ecb_decrypt_of(input: Seq<u8>, key: Seq<u8>) -> Seq<u8>;

/// Relies on openssl::symm::decrypt with Cipher::aes_128_ecb: AES-128-ECB
/// decryption with PKCS#7 unpadding, a deterministic function of ciphertext
/// and key. A key of the wrong length is rejected with an error, as are
/// misaligned input and corrupt padding. The two length bounds keep the
/// call away from openssl's internal conversions of the buffer and key
/// lengths to a C int, which panic beyond i32::MAX bytes.
#[verifier::external_body]
pub fn decrypt_aes_128_ecb(input: &[u8], key: &[u8]) -> (r: Result<Vec<u8>, AttackError>)
    requires
        input@.len() <= 0x0FFF_FFFF,
        key@.len() <= 255,
    ensures
        (r matches Ok(out) ==> out@ == aes128_ecb_decrypt_of(input@, key@)),
        key@.len() != 16 ==> r is Err,
{
    let cipher = openssl::symm::Cipher::aes_128_ecb();
    match openssl::symm::decrypt(cipher, key, None, input) {
        Ok(out) => Ok(out),
        Err(_) => Err(AttackError::OracleQueryFailed),
    }
}

} // verus!
