use vstd::prelude::*;

use crate::errors::AttackError;

verus! {

/// Number of set bits in one byte.
pub open spec fn popcount8(b: u8) -> int {
    ((b >> 0) & 1) as int + ((b >> 1) & 1) as int + ((b >> 2) & 1) as int + ((b >> 3) & 1) as int
        + ((b >> 4) & 1) as int + ((b >> 5) & 1) as int + ((b >> 6) & 1) as int
        + ((b >> 7) & 1) as int
}

pub proof fn lemma_popcount8_bound(b: u8)
    ensures
        0 <= popcount8(b) <= 8,
{
    assert((b >> 0) & 1 <= 1 && (b >> 1) & 1 <= 1 && (b >> 2) & 1 <= 1 && (b >> 3) & 1 <= 1 && (b
        >> 4) & 1 <= 1 && (b >> 5) & 1 <= 1 && (b >> 6) & 1 <= 1 && (b >> 7) & 1 <= 1)
        by (bit_vector);
}

/// Count of set bits in one byte, as executable code.
fn byte_ones(b: u8) -> (r: u32)
    ensures
        r == popcount8(b),
        r <= 8,
{
    proof {
        lemma_popcount8_bound(b);
    }
    (((b >> 0) & 1) as u32) + (((b >> 1) & 1) as u32) + (((b >> 2) & 1) as u32) + (((b >> 3)
        & 1) as u32) + (((b >> 4) & 1) as u32) + (((b >> 5) & 1) as u32) + (((b >> 6) & 1) as u32)
        + (((b >> 7) & 1) as u32)
}

/// Total count of differing bits between `a` and `b` from position `i` on.
pub open spec fn hamming_from(a: Seq<u8>, b: Seq<u8>, i: int) -> int
    decreases a.len() - i,
{
    if i < 0 || i >= a.len() {
        0
    } else {
        popcount8(a[i] ^ b[i]) + hamming_from(a, b, i + 1)
    }
}

/// Total count of differing bits between two equal-length byte sequences.
pub open spec fn hamming(a: Seq<u8>, b: Seq<u8>) -> int
    recommends
        a.len() == b.len(),
{
    hamming_from(a, b, 0)
}

proof fn lemma_hamming_from_bound(a: Seq<u8>, b: Seq<u8>, i: int)
    requires
        0 <= i <= a.len(),
    ensures
        0 <= hamming_from(a, b, i) <= 8 * (a.len() - i),
    decreases a.len() - i,
{
    if i < a.len() {
        lemma_popcount8_bound(a[i] ^ b[i]);
        lemma_hamming_from_bound(a, b, i + 1);
    }
}

pub proof fn lemma_hamming_bound(a: Seq<u8>, b: Seq<u8>)
    ensures
        0 <= hamming(a, b) <= 8 * a.len(),
{
    lemma_hamming_from_bound(a, b, 0);
}

proof fn lemma_hamming_from_self(a: Seq<u8>, i: int)
    ensures
        hamming_from(a, a, i) == 0,
    decreases a.len() - i,
{
    if 0 <= i < a.len() {
        let x = a[i];
        assert(x ^ x == 0) by (bit_vector);
        assert(popcount8(0) == 0) by (bit_vector);
        lemma_hamming_from_self(a, i + 1);
    }
}

/// Law: the bit distance from any byte sequence to itself is zero.
pub proof fn lemma_hamming_self(a: Seq<u8>)
    ensures
        hamming(a, a) == 0,
{
    lemma_hamming_from_self(a, 0);
}

proof fn lemma_hamming_from_symmetric(a: Seq<u8>, b: Seq<u8>, i: int)
    requires
        a.len() == b.len(),
    ensures
        hamming_from(a, b, i) == hamming_from(b, a, i),
    decreases a.len() - i,
{
    if 0 <= i < a.len() {
        let x = a[i];
        let y = b[i];
        assert(x ^ y == y ^ x) by (bit_vector);
        lemma_hamming_from_symmetric(a, b, i + 1);
    }
}

/// Law: the bit distance between two equal-length byte sequences does not
/// depend on the order of its operands.
pub proof fn lemma_hamming_symmetric(a: Seq<u8>, b: Seq<u8>)
    requires
        a.len() == b.len(),
    ensures
        hamming(a, b) == hamming(b, a),
{
    lemma_hamming_from_symmetric(a, b, 0);
}

/// Total count of differing bits, byte-wise; the operands must have the
/// same length, anything else is a disqualifying mistake by the caller.
/// The length bound is forced by the `u32` result (eight bits a byte); the
/// round figure here is a little tighter than the arithmetic needs.
pub fn hamming_distance(left: &[u8], right: &[u8]) -> (r: Result<u32, AttackError>)
    requires
        left@.len() <= 0x0FFF_FFFF,
    ensures
        left@.len() == right@.len() ==> (r matches Ok(d) && d == hamming(left@, right@)),
        left@.len() != right@.len() ==> r == Err::<u32, AttackError>(AttackError::LengthMismatch),
{
    if left.len() != right.len() {
        return Err(AttackError::LengthMismatch);
    }
    let mut total: u32 = 0;
    let mut i: usize = 0;
    while i < left.len()
        invariant
            left@.len() == right@.len(),
            left@.len() <= 0x0FFF_FFFF,
            i <= left@.len(),
            total == hamming(left@, right@) - hamming_from(left@, right@, i as int),
            total <= 8 * i,
        decreases left@.len() - i,
    {
        proof {
            lemma_hamming_from_bound(left@, right@, i as int);
        }
        total = total + byte_ones(left[i] ^ right[i]);
        i = i + 1;
    }
    Ok(total)
}

/// XOR of position `i` of `s` with `k`, over the whole sequence.
pub open spec fn single_xor(s: Seq<u8>, k: u8) -> Seq<u8> {
    Seq::new(s.len(), |i: int| s[i] ^ k)
}

/// XOR every byte of the input with the single key byte `k`.
pub fn do_single_xor(input: &Vec<u8>, k: u8) -> (r: Result<Vec<u8>, AttackError>)
    ensures
        r matches Ok(out) && out@ == single_xor(input@, k),
{
    let mut out: Vec<u8> = Vec::new();
    let mut i: usize = 0;
    while i < input.len()
        invariant
            i <= input@.len(),
            out@.len() == i,
            forall|j: int| 0 <= j < i ==> out@[j] == input@[j] ^ k,
        decreases input@.len() - i,
    {
        out.push(input[i] ^ k);
        i = i + 1;
    }
    assert(out@ =~= single_xor(input@, k));
    Ok(out)
}

/// Law: applying the same single-byte key twice returns the original bytes.
pub proof fn lemma_single_xor_involution(x: Seq<u8>, k: u8)
    ensures
        single_xor(single_xor(x, k), k) == x,
{
    assert forall|i: int| 0 <= i < x.len() implies single_xor(single_xor(x, k), k)[i] == x[i] by {
        let b = x[i];
        assert((b ^ k) ^ k == b) by (bit_vector);
    }
    assert(single_xor(single_xor(x, k), k) =~= x);
}

/// Position-wise XOR of two equal-length byte sequences.
pub open spec fn xor_bytes(a: Seq<u8>, b: Seq<u8>) -> Seq<u8>
    recommends
        a.len() == b.len(),
{
    Seq::new(a.len(), |i: int| a[i] ^ b[i])
}

/// XOR two byte sequences position by position; the operands must have the
/// same length.
pub fn do_xor(left: Vec<u8>, right: Vec<u8>) -> (r: Result<Vec<u8>, AttackError>)
    ensures
        left@.len() == right@.len() ==> (r matches Ok(out) && out@ == xor_bytes(left@, right@)),
        left@.len() != right@.len() ==> r == Err::<Vec<u8>, AttackError>(
            AttackError::LengthMismatch,
        ),
{
    if left.len() != right.len() {
        return Err(AttackError::LengthMismatch);
    }
    let mut out_bytes: Vec<u8> = Vec::new();
    let mut i: usize = 0;
    while i < left.len()
        invariant
            left@.len() == right@.len(),
            i <= left@.len(),
            out_bytes@.len() == i,
            forall|j: int| 0 <= j < i ==> out_bytes@[j] == left@[j] ^ right@[j],
        decreases left@.len() - i,
    {
        out_bytes.push(left[i] ^ right[i]);
        i = i + 1;
    }
    assert(out_bytes@ =~= xor_bytes(left@, right@));
    Ok(out_bytes)
}

/// Repeating-key XOR: position `i` of the input against key byte `i mod len`.
pub open spec fn vigenere(s: Seq<u8>, key: Seq<u8>) -> Seq<u8>
    recommends
        key.len() > 0,
{
    Seq::new(s.len(), |i: int| s[i] ^ key[i % key.len() as int])
}

/// XOR the input against the key repeated cyclically. An empty key with
/// nonempty input has no byte to pair with the first position and is
/// rejected as a length mismatch.
pub fn do_vigenere(input: &Vec<u8>, key: &Vec<u8>) -> (r: Result<Vec<u8>, AttackError>)
    ensures
        key@.len() > 0 || input@.len() == 0 ==> (r matches Ok(out) && out@ == vigenere(
            input@,
            key@,
        )),
        key@.len() == 0 && input@.len() > 0 ==> r == Err::<Vec<u8>, AttackError>(
            AttackError::LengthMismatch,
        ),
{
    if key.len() == 0 {
        if input.len() == 0 {
            let out: Vec<u8> = Vec::new();
            assert(out@ =~= vigenere(input@, key@));
            return Ok(out);
        }
        return Err(AttackError::LengthMismatch);
    }
    let mut out: Vec<u8> = Vec::new();
    let mut i: usize = 0;
    while i < input.len()
        invariant
            key@.len() > 0,
            i <= input@.len(),
            out@.len() == i,
            forall|j: int| 0 <= j < i ==> out@[j] == input@[j] ^ key@[j % key@.len() as int],
        decreases input@.len() - i,
    {
        out.push(input[i] ^ key[i % key.len()]);
        i = i + 1;
    }
    assert(out@ =~= vigenere(input@, key@));
    Ok(out)
}

/// Law: with a one-byte key, repeating-key XOR is single-byte XOR with that
/// one byte.
pub proof fn lemma_vigenere_single_byte(s: Seq<u8>, key: Seq<u8>)
    requires
        key.len() == 1,
    ensures
        vigenere(s, key) == single_xor(s, key[0]),
{
    assert forall|i: int| 0 <= i < s.len() implies vigenere(s, key)[i] == single_xor(s, key[0])[i]
        by {
        assert(i % 1int == 0);
    }
    assert(vigenere(s, key) =~= single_xor(s, key[0]));
}

} // verus!
