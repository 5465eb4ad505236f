use vstd::prelude::*;

use crate::errors::AttackError;
use crate::xor::{do_single_xor, hamming, hamming_distance, lemma_hamming_bound, single_xor};

verus! {

/// Scores are parts-per-million fixed-point values: a byte frequency table
/// entry is `occurrences * SCORE_SCALE / corpus length`.
pub const SCORE_SCALE: u64 = 1_000_000;

/// Number of occurrences of the byte `c` in `s`.
pub open spec fn count_byte(s: Seq<u8>, c: u8) -> int
    decreases s.len(),
{
    if s.len() == 0 {
        0
    } else {
        count_byte(s.drop_last(), c) + if s.last() == c {
            1int
        } else {
            0int
        }
    }
}

/// Build the character-frequency table from a reference corpus: one entry
/// per byte value, each the byte's occurrence count scaled to parts per
/// million of the corpus length.
pub fn build_charstat_dict(corpus: &[u8]) -> (dict: Vec<u64>)
    requires
        0 < corpus@.len() <= 0xFFFF_FFFF,
    ensures
        dict@.len() == 256,
        forall|c: int| 0 <= c < 256 ==> dict@[c] == count_byte(corpus@, c as u8) * SCORE_SCALE
            / (corpus@.len() as int),
        forall|c: int| 0 <= c < 256 ==> dict@[c] <= SCORE_SCALE,
{
    let mut counts: Vec<u64> = Vec::new();
    let mut c: usize = 0;
    while c < 256
        invariant
            c <= 256,
            counts@.len() == c,
            forall|j: int| 0 <= j < c ==> counts@[j] == 0,
        decreases 256 - c,
    {
        counts.push(0);
        c = c + 1;
    }
    assert(forall|j: int| 0 <= j < 256 ==> counts@[j] == count_byte(corpus@.take(0), j as u8));
    let mut i: usize = 0;
    while i < corpus.len()
        invariant
            i <= corpus@.len(),
            corpus@.len() <= 0xFFFF_FFFF,
            counts@.len() == 256,
            forall|j: int| 0 <= j < 256 ==> counts@[j] == count_byte(
                corpus@.take(i as int),
                j as u8,
            ),
            forall|j: int| 0 <= j < 256 ==> counts@[j] <= i,
        decreases corpus@.len() - i,
    {
        let b = corpus[i] as usize;
        let old_count = counts[b];
        counts.set(b, old_count + 1);
        proof {
            assert forall|j: int| 0 <= j < 256 implies counts@[j] == count_byte(
                corpus@.take(i + 1),
                j as u8,
            ) by {
                let t = corpus@.take(i + 1);
                assert(t.drop_last() =~= corpus@.take(i as int));
                assert(t.last() == corpus@[i as int]);
            }
        }
        i = i + 1;
    }
    proof {
        assert(corpus@.take(corpus@.len() as int) =~= corpus@);
    }
    let total = corpus.len() as u64;
    let mut dict: Vec<u64> = Vec::new();
    let mut c2: usize = 0;
    while c2 < 256
        invariant
            c2 <= 256,
            dict@.len() == c2,
            counts@.len() == 256,
            0 < corpus@.len() <= 0xFFFF_FFFF,
            total == corpus@.len() as u64,
            forall|j: int| 0 <= j < 256 ==> counts@[j] == count_byte(corpus@, j as u8),
            forall|j: int| 0 <= j < 256 ==> counts@[j] <= corpus@.len(),
            forall|j: int| 0 <= j < c2 ==> dict@[j] == count_byte(corpus@, j as u8) * SCORE_SCALE
                / (corpus@.len() as int),
            forall|j: int| 0 <= j < c2 ==> dict@[j] <= SCORE_SCALE,
        decreases 256 - c2,
    {
        let n = counts[c2];
        assert(n * SCORE_SCALE <= 0xFFFF_FFFFu64 * SCORE_SCALE) by (nonlinear_arith)
            requires
                n <= 0xFFFF_FFFFu64,
        ;
        let scaled = n * SCORE_SCALE / total;
        assert(n * SCORE_SCALE / (total as int) <= SCORE_SCALE) by (nonlinear_arith)
            requires
                0 < total,
                n <= total,
        ;
        dict.push(scaled);
        c2 = c2 + 1;
    }
    dict
}

/// Total frequency score of `s` when XORed with the key byte `k`: the sum
/// of the table entries of each decoded byte.
pub open spec fn xor_score(s: Seq<u8>, dict: Seq<u64>, k: u8) -> int
    decreases s.len(),
{
    if s.len() == 0 {
        0
    } else {
        xor_score(s.drop_last(), dict, k) + dict[(s.last() ^ k) as int]
    }
}

proof fn lemma_xor_score_bound(s: Seq<u8>, dict: Seq<u64>, bound: int)
    requires
        dict.len() == 256,
        forall|j: int| 0 <= j < 256 ==> dict[j] <= bound,
        0 <= bound,
    ensures
        forall|k: u8| 0 <= #[trigger] xor_score(s, dict, k) <= s.len() * bound,
    decreases s.len(),
{
    if s.len() == 0 {
    } else {
        lemma_xor_score_bound(s.drop_last(), dict, bound);
        assert forall|k: u8| 0 <= #[trigger] xor_score(s, dict, k) <= s.len() * bound by {
            assert(xor_score(s.drop_last(), dict, k) <= (s.len() - 1) * bound);
            assert((s.len() - 1) * bound + bound == s.len() * bound) by (nonlinear_arith);
        }
    }
}

/// The key byte `k` scores at least as well as every candidate, and strictly
/// better than every smaller candidate: it is the first-seen maximum under
/// the strict greater-than comparison.
pub open spec fn is_best_xor_key(s: Seq<u8>, dict: Seq<u64>, k: u8) -> bool {
    &&& forall|k2: u8| xor_score(s, dict, k2) <= xor_score(s, dict, k)
    &&& forall|k2: u8| k2 < k ==> xor_score(s, dict, k2) < xor_score(s, dict, k)
}

/// Try all 256 single-byte XOR keys against the input and return the one
/// whose decoded bytes score highest against the frequency table, together
/// with that score. Ties keep the lowest key byte.
pub fn crack_single_xor(input: &Vec<u8>, dict: &Vec<u64>) -> (r: Result<(u8, u64), AttackError>)
    requires
        input@.len() <= 0xFFFF_FFFF,
        dict@.len() == 256,
        forall|j: int| 0 <= j < 256 ==> dict@[j] <= 0xFFFF_FFFF,
    ensures
        r matches Ok(best) && is_best_xor_key(input@, dict@, best.0) && best.1 == xor_score(
            input@,
            dict@,
            best.0,
        ),
{
    proof {
        lemma_xor_score_bound(input@, dict@, 0xFFFF_FFFF);
        assert(input@.len() * 0xFFFF_FFFF <= 0xFFFF_FFFFu64 * 0xFFFF_FFFF) by (nonlinear_arith)
            requires
                input@.len() <= 0xFFFF_FFFF,
        ;
    }
    let mut max_score: u64 = 0;
    let mut key: u8 = 0;
    let mut k: usize = 0;
    while k < 256
        invariant
            k <= 256,
            input@.len() <= 0xFFFF_FFFF,
            dict@.len() == 256,
            forall|j: int| 0 <= j < 256 ==> dict@[j] <= 0xFFFF_FFFF,
            forall|k2: u8| 0 <= #[trigger] xor_score(input@, dict@, k2) <= 0xFFFF_FFFFu64
                * 0xFFFF_FFFF,
            if k == 0 {
                max_score == 0 && key == 0
            } else {
                max_score == xor_score(input@, dict@, key) && (key as usize) < k
            },
            forall|k2: u8| (k2 as usize) < k ==> xor_score(input@, dict@, k2) <= max_score,
            forall|k2: u8| k2 < key ==> xor_score(input@, dict@, k2) < max_score,
        decreases 256 - k,
    {
        let xored = match do_single_xor(input, k as u8) {
            Ok(x) => x,
            Err(e) => return Err(e),
        };
        let mut score: u64 = 0;
        let mut i: usize = 0;
        while i < xored.len()
            invariant
                i <= xored@.len(),
                k < 256,
                xored@ == single_xor(input@, k as u8),
                xored@.len() == input@.len(),
                input@.len() <= 0xFFFF_FFFF,
                dict@.len() == 256,
                forall|j: int| 0 <= j < 256 ==> dict@[j] <= 0xFFFF_FFFF,
                score == xor_score(input@.take(i as int), dict@, k as u8),
                score <= i * 0xFFFF_FFFF,
            decreases xored@.len() - i,
        {
            proof {
                assert((i + 1) * 0xFFFF_FFFF == i * 0xFFFF_FFFF + 0xFFFF_FFFF) by (nonlinear_arith);
                assert(i * 0xFFFF_FFFF <= 0xFFFF_FFFEu64 * 0xFFFF_FFFF) by (nonlinear_arith)
                    requires
                        0 <= i <= 0xFFFF_FFFE,
                ;
                let t = input@.take(i + 1);
                assert(t.drop_last() =~= input@.take(i as int));
                assert(t.last() == input@[i as int]);
            }
            score = score + dict[xored[i] as usize];
            i = i + 1;
        }
        proof {
            assert(input@.take(input@.len() as int) =~= input@);
        }
        if score > max_score {
            max_score = score;
            key = k as u8;
        }
        k = k + 1;
    }
    Ok((key, max_score))
}

/// The sub-stream of `s` starting at `i` and stepping by `ks`: the bytes
/// that a repeating key of length `ks` would XOR with key position `i`.
pub open spec fn stride(s: Seq<u8>, ks: int, i: int) -> Seq<u8>
    decreases (if i <= s.len() { s.len() - i } else { 0 }),
{
    if ks <= 0 || i < 0 || i >= s.len() {
        Seq::empty()
    } else {
        seq![s[i]] + stride(s, ks, i + ks)
    }
}

proof fn lemma_stride_len(s: Seq<u8>, ks: int, i: int)
    requires
        ks >= 1,
        i >= 0,
    ensures
        stride(s, ks, i).len() <= (if i <= s.len() {
            s.len() - i
        } else {
            0
        }),
    decreases (if i <= s.len() { s.len() - i } else { 0 }),
{
    if i < s.len() {
        lemma_stride_len(s, ks, i + ks);
    }
}

/// Pairwise bit distance over the first four `ks`-byte chunks of the input:
/// the six distinct pairs (the self-pairs of the nested enumeration are
/// always zero).
#[verifier::opaque]
pub open spec fn chunk_pair_distance(s: Seq<u8>, ks: int) -> int
    recommends
        ks >= 1,
        4 * ks <= s.len(),
{
    let c0 = s.subrange(0, ks);
    let c1 = s.subrange(ks, 2 * ks);
    let c2 = s.subrange(2 * ks, 3 * ks);
    let c3 = s.subrange(3 * ks, 4 * ks);
    hamming(c0, c1) + hamming(c0, c2) + hamming(c0, c3) + hamming(c1, c2) + hamming(c1, c3)
        + hamming(c2, c3)
}

/// `ks` is at least as good as `k2` under the normalized comparison
/// `d(ks)/ks <= d(k2)/k2`, written with cross-multiplication to stay in the
/// integers.
pub open spec fn distance_le(s: Seq<u8>, ks: int, k2: int) -> bool {
    chunk_pair_distance(s, ks) * k2 <= chunk_pair_distance(s, k2) * ks
}

proof fn lemma_frac_trans_strict(a: int, b: int, c: int, x: int, y: int, z: int)
    requires
        x >= 1,
        y >= 1,
        z >= 1,
        a * y < b * x,
        b * z <= c * y,
    ensures
        a * z < c * x,
{
    assert(a * z * y < c * x * y) by (nonlinear_arith)
        requires
            x >= 1,
            y >= 1,
            z >= 1,
            a * y < b * x,
            b * z <= c * y,
    ;
    assert(a * z * y < c * x * y ==> a * z < c * x) by (nonlinear_arith)
        requires
            y >= 1,
    ;
}

/// The first chunk of `s` of `size` bytes, starting at chunk index `idx`.
fn take_chunk(s: &[u8], idx: usize, size: usize) -> (r: Vec<u8>)
    requires
        (idx + 1) * size <= s@.len(),
        s@.len() <= 0x0FFF_FFFF,
    ensures
        r@ == s@.subrange(idx * size as int, (idx + 1) * size as int),
{
    proof {
        assert(((idx as int) + 1) * (size as int) == (idx as int) * (size as int) + (size as int))
            by (nonlinear_arith);
    }
    let mut out: Vec<u8> = Vec::new();
    let start = idx * size;
    let mut t: usize = 0;
    while t < size
        invariant
            t <= size,
            start == idx * size,
            start + size <= s@.len(),
            s@.len() <= 0x0FFF_FFFF,
            out@.len() == t,
            forall|j: int| 0 <= j < t ==> out@[j] == s@[start + j],
        decreases size - t,
    {
        out.push(s[start + t]);
        t = t + 1;
    }
    proof {
        assert(((idx as int) + 1) * (size as int) == (idx as int) * (size as int) + (size as int))
            by (nonlinear_arith);
        assert(out@ =~= s@.subrange(idx * size as int, (idx + 1) * size as int));
    }
    out
}

/// The six pairwise bit distances of the first four `key_size`-byte chunks.
fn chunk_distance_sum(input: &[u8], key_size: usize) -> (r: Result<u64, AttackError>)
    requires
        2 <= key_size < 40,
        4 * key_size <= input@.len(),
        input@.len() <= 0x0FFF_FFFF,
    ensures
        r matches Ok(d) && d == chunk_pair_distance(input@, key_size as int) && d <= 1920,
{
    let c0 = take_chunk(input, 0, key_size);
    let c1 = take_chunk(input, 1, key_size);
    let c2 = take_chunk(input, 2, key_size);
    let c3 = take_chunk(input, 3, key_size);
    proof {
        lemma_hamming_bound(c0@, c1@);
        lemma_hamming_bound(c0@, c2@);
        lemma_hamming_bound(c0@, c3@);
        lemma_hamming_bound(c1@, c2@);
        lemma_hamming_bound(c1@, c3@);
        lemma_hamming_bound(c2@, c3@);
    }
    let d01 = hamming_pair(&c0, &c1)?;
    let d02 = hamming_pair(&c0, &c2)?;
    let d03 = hamming_pair(&c0, &c3)?;
    let d12 = hamming_pair(&c1, &c2)?;
    let d13 = hamming_pair(&c1, &c3)?;
    let d23 = hamming_pair(&c2, &c3)?;
    proof {
        reveal(chunk_pair_distance);
    }
    Ok((d01 as u64) + (d02 as u64) + (d03 as u64) + (d12 as u64) + (d13 as u64) + (d23 as u64))
}

/// Bit distance of two equal-length chunks.
fn hamming_pair(a: &Vec<u8>, b: &Vec<u8>) -> (r: Result<u32, AttackError>)
    requires
        a@.len() == b@.len(),
        a@.len() <= 0x0FFF_FFFF,
    ensures
        r matches Ok(d) && d == hamming(a@, b@),
{
    hamming_distance(a.as_slice(), b.as_slice())
}

/// `ks` is the candidate key size that `guess_key_size` settles on: the
/// first size in 2..40 whose normalized chunk distance is minimal.
pub open spec fn is_best_key_size(s: Seq<u8>, ks: int) -> bool {
    &&& 2 <= ks < 40
    &&& forall|k2: int| 2 <= k2 < 40 ==> distance_le(s, ks, k2)
    &&& forall|k2: int| 2 <= k2 < ks ==> !distance_le(s, k2, ks)
}

/// Estimate the repeating key length: for each candidate size from 2 to 39,
/// sum the pairwise bit distances of the first four chunks, normalize by the
/// candidate size, and keep the first minimum. Inputs too short to supply
/// four full chunks of every candidate size are rejected as a length
/// mismatch.
pub fn guess_key_size(input: &[u8]) -> (r: Result<usize, AttackError>)
    requires
        input@.len() <= 0x0FFF_FFFF,
    ensures
        input@.len() >= 156 ==> (r matches Ok(best) && is_best_key_size(input@, best as int)),
        input@.len() < 156 ==> r == Err::<usize, AttackError>(AttackError::LengthMismatch),
{
    if input.len() < 156 {
        return Err(AttackError::LengthMismatch);
    }
    let mut best_key_size: usize = 0;
    let mut best_distance: u64 = 0;
    let mut key_size: usize = 2;
    while key_size < 40
        invariant
            2 <= key_size <= 40,
            156 <= input@.len() <= 0x0FFF_FFFF,
            if key_size == 2 {
                best_key_size == 0 && best_distance == 0
            } else {
                &&& 2 <= best_key_size < key_size
                &&& best_distance == chunk_pair_distance(input@, best_key_size as int)
                &&& best_distance <= 1920
                &&& forall|k2: int| 2 <= k2 < key_size ==> distance_le(
                    input@,
                    best_key_size as int,
                    k2,
                )
                &&& forall|k2: int| 2 <= k2 < best_key_size ==> !distance_le(
                    input@,
                    k2,
                    best_key_size as int,
                )
            },
        decreases 40 - key_size,
    {
        let d = chunk_distance_sum(input, key_size)?;
        proof {
            assert((d as int) * (best_key_size as int) <= 1920 * 40) by (nonlinear_arith)
                requires
                    0 <= d <= 1920,
                    0 <= best_key_size <= 40,
            ;
            assert((best_distance as int) * (key_size as int) <= 1920 * 40) by (nonlinear_arith)
                requires
                    0 <= best_distance <= 1920,
                    0 <= key_size <= 40,
            ;
        }
        if best_key_size == 0 {
            best_distance = d;
            best_key_size = key_size;
        } else {
            // d / key_size < best_distance / best_key_size, cross-multiplied.
            if d * (best_key_size as u64) < best_distance * (key_size as u64) {
                proof {
                    let ghost s = input@;
                    let ghost ks = key_size as int;
                    let ghost bk = best_key_size as int;
                    assert forall|k2: int| 2 <= k2 <= ks implies distance_le(s, ks, k2)
                        && (k2 < ks ==> !distance_le(s, k2, ks)) by {
                        if k2 < ks {
                            assert(distance_le(s, bk, k2));
                            lemma_frac_trans_strict(
                                chunk_pair_distance(s, ks),
                                chunk_pair_distance(s, bk),
                                chunk_pair_distance(s, k2),
                                ks,
                                bk,
                                k2,
                            );
                        }
                    }
                }
                best_distance = d;
                best_key_size = key_size;
            } else {
                proof {
                    assert(distance_le(input@, best_key_size as int, key_size as int));
                }
            }
        }
        key_size = key_size + 1;
    }
    Ok(best_key_size)
}

/// Recover a repeating XOR key: guess the key size, split the input into one
/// sub-stream per key position, and solve each sub-stream as single-byte XOR
/// against the frequency table.
pub fn crack_vigenere(input: &[u8], dict: &Vec<u64>) -> (r: Result<Vec<u8>, AttackError>)
    requires
        input@.len() <= 0x0FFF_FFFF,
        dict@.len() == 256,
        forall|j: int| 0 <= j < 256 ==> dict@[j] <= 0xFFFF_FFFF,
    ensures
        input@.len() >= 156 ==> (r matches Ok(key) && exists|ks: int|
            {
                &&& #[trigger] is_best_key_size(input@, ks)
                &&& key@.len() == ks
                &&& forall|i: int| 0 <= i < ks ==> is_best_xor_key(
                    stride(input@, ks, i),
                    dict@,
                    #[trigger] key@[i],
                )
            }),
        input@.len() < 156 ==> r == Err::<Vec<u8>, AttackError>(AttackError::LengthMismatch),
{
    if input.len() < 156 {
        return Err(AttackError::LengthMismatch);
    }
    let key_size = match guess_key_size(input) {
        Ok(ks) => ks,
        Err(e) => {
            return Err(e);
        },
    };
    let mut key: Vec<u8> = Vec::new();
    let mut i: usize = 0;
    while i < key_size
        invariant
            i <= key_size,
            2 <= key_size < 40,
            156 <= input@.len() <= 0x0FFF_FFFF,
            dict@.len() == 256,
            forall|j: int| 0 <= j < 256 ==> dict@[j] <= 0xFFFF_FFFF,
            is_best_key_size(input@, key_size as int),
            key@.len() == i,
            forall|j: int| 0 <= j < i ==> is_best_xor_key(
                stride(input@, key_size as int, j),
                dict@,
                #[trigger] key@[j],
            ),
        decreases key_size - i,
    {
        let mut vector: Vec<u8> = Vec::new();
        let mut j: usize = i;
        while j < input.len()
            invariant
                i < key_size < 40,
                input@.len() <= 0x0FFF_FFFF,
                i <= j,
                j <= input@.len() + 40,
                vector@ + stride(input@, key_size as int, j as int) == stride(
                    input@,
                    key_size as int,
                    i as int,
                ),
            decreases input@.len() + 40 - j,
        {
            let ghost vpre = vector@;
            vector.push(input[j]);
            proof {
                assert(stride(input@, key_size as int, j as int) == seq![input@[j as int]]
                    + stride(input@, key_size as int, j + key_size));
                assert(vector@ + stride(input@, key_size as int, j + key_size) =~= vpre + stride(
                    input@,
                    key_size as int,
                    j as int,
                ));
            }
            j = j + key_size;
        }
        proof {
            assert(stride(input@, key_size as int, j as int) =~= Seq::<u8>::empty());
            assert(vector@ + Seq::<u8>::empty() =~= vector@);
            assert(vector@ == stride(input@, key_size as int, i as int));
            lemma_stride_len(input@, key_size as int, i as int);
        }
        let (k, _) = match crack_single_xor(&vector, dict) {
            Ok(p) => p,
            Err(e) => return Err(e),
        };
        key.push(k);
        i = i + 1;
    }
    Ok(key)
}

} // verus!
