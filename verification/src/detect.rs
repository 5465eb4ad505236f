use vstd::prelude::*;

use crate::errors::AttackError;
use crate::oracle::{
    fill, lemma_cipher_block, lemma_cipher_len, lemma_obeys_padded_lengths, lemma_padded_len_jump,
    lemma_padded_len_props, lemma_padded_len_window, obeys_ecb, obeys_padded_lengths, padded_len,
    EcbOracle, Mode, Oracle,
};

verus! {

/// Upper bound on the probes sent while waiting for the ciphertext length
/// to change; a padded block size never exceeds 255 bytes, so a compliant
/// oracle must react within this many extra bytes.
pub const MAX_LENGTH_PROBES: usize = 256;

/// A vector of `n` copies of the byte `v`.
fn make_fill(v: u8, n: usize) -> (r: Vec<u8>)
    ensures
        r@ == fill(v, n as int),
{
    let mut out: Vec<u8> = Vec::new();
    let mut i: usize = 0;
    while i < n
        invariant
            i <= n,
            out@.len() == i,
            forall|j: int| 0 <= j < i ==> out@[j] == v,
        decreases n - i,
    {
        out.push(v);
        i = i + 1;
    }
    assert(out@ =~= fill(v, n as int));
    out
}

/// Under a fixed-codebook description `m`, every probe of `n <= 744` bytes
/// fits, and its ciphertext length is the padded length of the message.
proof fn lemma_probe_len(o: &impl Oracle, m: EcbOracle, d: Seq<u8>)
    requires
        obeys_ecb(o, m),
        d.len() <= 744,
    ensures
        m.fits(d.len() as int),
        o.spec_encrypt(d) == Some(m.cipher(d)),
        m.cipher(d).len() == padded_len(m.hidden_len() + d.len(), m.block_size),
{
    assert(o.spec_encrypt(d) == Some(m.cipher(d)));
    lemma_cipher_len(m, d);
}

/// The oracle answered the empty query and every zero-filler probe up to
/// 256 bytes with a ciphertext of one unchanging length: the situation in
/// which the length-probing detectors report an indeterminate block size.
pub open spec fn length_never_changes<T: Oracle>(o: &T) -> bool {
    forall|j: int|
        0 <= j <= 256 ==> ((#[trigger] o.spec_encrypt(fill(0u8, j))) matches Some(c) && (
        o.spec_encrypt(fill(0u8, 0)) matches Some(c0) && c.len() == c0.len()))
}

/// What one run of the shared length probe observed: every zero-filler
/// query shorter than `steps` bytes returned a ciphertext of `before`
/// bytes, and the `steps`-byte query first grew it to `after`.
pub open spec fn probe_outcome<T: Oracle>(o: &T, steps: int, before: int, after: int) -> bool {
    &&& 1 <= steps <= 256
    &&& before < after
    &&& (o.spec_encrypt(fill(0u8, steps)) matches Some(c) && c.len() == after)
    &&& forall|j: int|
        0 <= j < steps ==> ((#[trigger] o.spec_encrypt(fill(0u8, j))) matches Some(c) && c.len()
            == before)
}

/// Send one filler byte at a time until the ciphertext length first grows;
/// report how many bytes that took and the two lengths seen. This is the
/// probe shared by the block-size and length detectors.
///
/// On success the result is exactly what was observed (`probe_outcome`);
/// under any padded-length profile the count is exactly
/// `block size - hidden length % block size` and the lengths are the padded
/// lengths before and after the jump; and an oracle whose length never
/// changes is reported as indeterminate.
fn probe_length_change<T: Oracle>(oracle: &T) -> (r: Result<(usize, usize, usize), AttackError>)
    ensures
        (r is Err ==> r == Err::<(usize, usize, usize), AttackError>(AttackError::OracleQueryFailed) || r == Err::<(usize, usize, usize), AttackError>(AttackError::IndeterminateBlockSize)),
        (r matches Ok(p) ==> probe_outcome(oracle, p.0 as int, p.1 as int, p.2 as int)),
        forall|h: int, bs: int| #[trigger]
            obeys_padded_lengths(oracle, h, bs) ==> (r matches Ok(p) && p.0 == bs - h % bs && p.1
                == padded_len(h, bs) && p.2 == padded_len(h, bs) + bs),
        length_never_changes(oracle) ==> r == Err::<(usize, usize, usize), AttackError>(
            AttackError::IndeterminateBlockSize,
        ),
{
    let empty: Vec<u8> = Vec::new();
    proof {
        assert(empty@ =~= fill(0u8, 0));
    }
    let zero_ct = match oracle.encrypt(empty.as_slice()) {
        Ok(c) => c,
        Err(e) => {
            proof {
                assert forall|h: int, bs: int| !obeys_padded_lengths(oracle, h, bs) by {
                    if obeys_padded_lengths(oracle, h, bs) {
                        assert(oracle.spec_encrypt(fill(0u8, 0)) matches Some(c));
                    }
                }
                assert(!length_never_changes(oracle)) by {
                    if length_never_changes(oracle) {
                        assert(oracle.spec_encrypt(fill(0u8, 0)) matches Some(c));
                    }
                }
            }
            return Err(AttackError::OracleQueryFailed);
        },
    };
    let zero_len = zero_ct.len();
    let mut payload: Vec<u8> = Vec::new();
    let mut i: usize = 0;
    while i < MAX_LENGTH_PROBES
        invariant
            i <= MAX_LENGTH_PROBES,
            payload@ == fill(0u8, i as int),
            oracle.spec_encrypt(fill(0u8, 0)) matches Some(c) && c.len() == zero_len,
            forall|j: int|
                0 <= j <= i ==> ((#[trigger] oracle.spec_encrypt(fill(0u8, j))) matches Some(c)
                    && c.len() == zero_len),
        decreases MAX_LENGTH_PROBES - i,
    {
        payload.push(0u8);
        proof {
            assert(payload@ =~= fill(0u8, i + 1));
        }
        let ct = match oracle.encrypt(payload.as_slice()) {
            Ok(c) => c,
            Err(e) => {
                proof {
                    assert forall|h: int, bs: int| !obeys_padded_lengths(oracle, h, bs) by {
                        if obeys_padded_lengths(oracle, h, bs) {
                            assert(oracle.spec_encrypt(fill(0u8, i + 1)) matches Some(c));
                        }
                    }
                    assert(!length_never_changes(oracle)) by {
                        if length_never_changes(oracle) {
                            assert(oracle.spec_encrypt(fill(0u8, i + 1)) matches Some(c));
                        }
                    }
                }
                return Err(AttackError::OracleQueryFailed);
            },
        };
        i = i + 1;
        if ct.len() > zero_len {
            proof {
                assert(probe_outcome(oracle, i as int, zero_len as int, ct@.len() as int));
                assert forall|h: int, bs: int| #[trigger]
                    obeys_padded_lengths(oracle, h, bs) implies {
                    &&& i == bs - h % bs
                    &&& zero_len == padded_len(h, bs)
                    &&& ct@.len() == padded_len(h, bs) + bs
                } by {
                    let j0 = bs - h % bs;
                    assert(oracle.spec_encrypt(fill(0u8, 0)) matches Some(c) && c.len()
                        == padded_len(h + 0, bs));
                    assert(oracle.spec_encrypt(fill(0u8, i as int)) matches Some(c) && c.len()
                        == padded_len(h + i, bs));
                    lemma_padded_len_props(h, bs);
                    lemma_padded_len_jump(h, bs);
                    if i < j0 {
                        lemma_padded_len_window(h, bs, i as int);
                        assert(false);
                    } else if i > j0 {
                        assert(oracle.spec_encrypt(fill(0u8, j0)) matches Some(c) && c.len()
                            == zero_len);
                        assert(oracle.spec_encrypt(fill(0u8, j0)) matches Some(c) && c.len()
                            == padded_len(h + j0, bs));
                        assert(false);
                    }
                }
                assert(!length_never_changes(oracle)) by {
                    if length_never_changes(oracle) {
                        assert(oracle.spec_encrypt(fill(0u8, i as int)) matches Some(c));
                    }
                }
            }
            return Ok((i, zero_len, ct.len()));
        } else if ct.len() < zero_len {
            proof {
                assert forall|h: int, bs: int| !obeys_padded_lengths(oracle, h, bs) by {
                    if obeys_padded_lengths(oracle, h, bs) {
                        assert(oracle.spec_encrypt(fill(0u8, 0)) matches Some(c) && c.len()
                            == padded_len(h + 0, bs));
                        assert(oracle.spec_encrypt(fill(0u8, i as int)) matches Some(c) && c.len()
                            == padded_len(h + i, bs));
                        lemma_padded_len_props(h, bs);
                        lemma_padded_len_jump(h, bs);
                        if i < bs - h % bs {
                            lemma_padded_len_window(h, bs, i as int);
                        }
                    }
                }
            }
            return Err(AttackError::IndeterminateBlockSize);
        }
    }
    proof {
        assert forall|h: int, bs: int| !obeys_padded_lengths(oracle, h, bs) by {
            if obeys_padded_lengths(oracle, h, bs) {
                let j0 = bs - h % bs;
                vstd::arithmetic::div_mod::lemma_mod_division_less_than_divisor(h, bs);
                lemma_padded_len_props(h, bs);
                lemma_padded_len_jump(h, bs);
                assert(oracle.spec_encrypt(fill(0u8, 0)) matches Some(c) && c.len() == padded_len(
                    h + 0,
                    bs,
                ));
                assert(oracle.spec_encrypt(fill(0u8, j0)) matches Some(c) && c.len() == zero_len);
                assert(oracle.spec_encrypt(fill(0u8, j0)) matches Some(c) && c.len() == padded_len(
                    h + j0,
                    bs,
                ));
            }
        }
    }
    Err(AttackError::IndeterminateBlockSize)
}

/// Find the block size: pad the input one byte at a time until the
/// ciphertext length jumps; the jump is exactly one block. The promise
/// holds for any oracle whose ciphertext lengths follow a padded-length
/// profile, whatever its mode; an oracle whose length never changes is
/// reported as indeterminate.
pub fn detect_blocksize<T: Oracle>(oracle: &T) -> (r: Result<usize, AttackError>)
    ensures
        (r is Err ==> r == Err::<usize, AttackError>(AttackError::OracleQueryFailed) || r == Err::<usize, AttackError>(AttackError::IndeterminateBlockSize)),
        forall|h: int, bs: int| #[trigger]
            obeys_padded_lengths(oracle, h, bs) ==> r == Ok::<usize, AttackError>(bs as usize),
        forall|m: EcbOracle| #[trigger]
            obeys_ecb(oracle, m) ==> r == Ok::<usize, AttackError>(m.block_size as usize),
        (r matches Ok(bs) ==> exists|s: int, b: int, a: int|
            #[trigger] probe_outcome(oracle, s, b, a) && bs == a - b),
        length_never_changes(oracle) ==> r == Err::<usize, AttackError>(
            AttackError::IndeterminateBlockSize,
        ),
{
    let probe = match probe_length_change(oracle) {
        Ok(p) => p,
        Err(e) => {
            proof {
                assert forall|m: EcbOracle| !obeys_ecb(oracle, m) by {
                    if obeys_ecb(oracle, m) {
                        lemma_obeys_padded_lengths(oracle, m);
                    }
                }
            }
            return Err(e);
        },
    };
    let (steps, before, after) = probe;
    if after <= before {
        // A compliant oracle only ever grows its ciphertext.
        proof {
            assert forall|m: EcbOracle| !obeys_ecb(oracle, m) by {
                if obeys_ecb(oracle, m) {
                    lemma_obeys_padded_lengths(oracle, m);
                }
            }
        }
        return Err(AttackError::IndeterminateBlockSize);
    }
    proof {
        assert forall|m: EcbOracle| #[trigger] obeys_ecb(oracle, m) implies after - before
            == m.block_size by {
            lemma_obeys_padded_lengths(oracle, m);
        }
        assert(probe_outcome(oracle, steps as int, before as int, after as int) && after - before
            == after - before);
    }
    Ok(after - before)
}

/// The padding verdict is grounded in observations: some run of the length
/// probe pinned the block size as `after - before`, the empty and one-byte
/// queries returned ciphertexts, and the verdict says whether the absolute
/// difference of their lengths is a multiple of that block size.
pub open spec fn padding_verdict<T: Oracle>(o: &T, active: bool) -> bool {
    exists|s: int, b: int, a: int|
        #[trigger] probe_outcome(o, s, b, a) && (o.spec_encrypt(fill(0u8, 0)) matches Some(ea) && (
        o.spec_encrypt(fill(0u8, 1)) matches Some(eb) && active == ((if ea.len() >= eb.len() {
            ea.len() - eb.len()
        } else {
            eb.len() - ea.len()
        }) % (a - b) == 0)))
}

/// Decide whether the oracle pads its messages: a one-byte input moves the
/// ciphertext length by either nothing or a whole block exactly when block
/// padding is in force. The verdict always relates the two observed
/// ciphertext lengths to the probed block size; under any padded-length
/// profile it is `true`.
pub fn detect_padding<T: Oracle>(oracle: &T) -> (r: Result<bool, AttackError>)
    ensures
        forall|h: int, bs: int| #[trigger]
            obeys_padded_lengths(oracle, h, bs) ==> r == Ok::<bool, AttackError>(true),
        forall|m: EcbOracle| #[trigger]
            obeys_ecb(oracle, m) ==> r == Ok::<bool, AttackError>(true),
        (r matches Ok(active) ==> padding_verdict(oracle, active)),
        length_never_changes(oracle) ==> r == Err::<bool, AttackError>(
            AttackError::IndeterminateBlockSize,
        ),
{
    let block_size = match detect_blocksize(oracle) {
        Ok(bs) => bs,
        Err(e) => {
            proof {
                assert forall|m: EcbOracle| !obeys_ecb(oracle, m) by {
                    if obeys_ecb(oracle, m) {
                        lemma_obeys_padded_lengths(oracle, m);
                    }
                }
            }
            return Err(e);
        },
    };
    if block_size == 0 {
        proof {
            assert forall|h: int, bs: int| !obeys_padded_lengths(oracle, h, bs) by {
                if obeys_padded_lengths(oracle, h, bs) {
                    assert(false);
                }
            }
            assert forall|m: EcbOracle| !obeys_ecb(oracle, m) by {
                if obeys_ecb(oracle, m) {
                    lemma_obeys_padded_lengths(oracle, m);
                }
            }
            assert(!length_never_changes(oracle)) by {
                if length_never_changes(oracle) {
                    assert(false);
                }
            }
        }
        return Err(AttackError::IndeterminateBlockSize);
    }
    let empty: Vec<u8> = Vec::new();
    proof {
        assert(empty@ =~= fill(0u8, 0));
    }
    let a = match oracle.encrypt(empty.as_slice()) {
        Ok(c) => c,
        Err(e) => {
            proof {
                assert forall|h: int, bs: int| !obeys_padded_lengths(oracle, h, bs) by {
                    if obeys_padded_lengths(oracle, h, bs) {
                        assert(oracle.spec_encrypt(fill(0u8, 0)) matches Some(c));
                    }
                }
                assert forall|m: EcbOracle| !obeys_ecb(oracle, m) by {
                    if obeys_ecb(oracle, m) {
                        lemma_obeys_padded_lengths(oracle, m);
                    }
                }
                assert(!length_never_changes(oracle)) by {
                    if length_never_changes(oracle) {
                        assert(oracle.spec_encrypt(fill(0u8, 0)) matches Some(c));
                    }
                }
            }
            return Err(AttackError::OracleQueryFailed);
        },
    };
    let one = make_fill(0u8, 1);
    let b = match oracle.encrypt(one.as_slice()) {
        Ok(c) => c,
        Err(e) => {
            proof {
                assert forall|h: int, bs: int| !obeys_padded_lengths(oracle, h, bs) by {
                    if obeys_padded_lengths(oracle, h, bs) {
                        assert(oracle.spec_encrypt(fill(0u8, 1)) matches Some(c));
                    }
                }
                assert forall|m: EcbOracle| !obeys_ecb(oracle, m) by {
                    if obeys_ecb(oracle, m) {
                        lemma_obeys_padded_lengths(oracle, m);
                    }
                }
                assert(!length_never_changes(oracle)) by {
                    if length_never_changes(oracle) {
                        assert(oracle.spec_encrypt(fill(0u8, 1)) matches Some(c));
                    }
                }
            }
            return Err(AttackError::OracleQueryFailed);
        },
    };
    let diff = if a.len() >= b.len() {
        a.len() - b.len()
    } else {
        b.len() - a.len()
    };
    proof {
        assert forall|h: int, bs: int| #[trigger] obeys_padded_lengths(oracle, h, bs) implies diff
            as int % (block_size as int) == 0 by {
            assert(oracle.spec_encrypt(fill(0u8, 0)) matches Some(c) && c.len() == padded_len(
                h + 0,
                bs,
            ));
            assert(oracle.spec_encrypt(fill(0u8, 1)) matches Some(c) && c.len() == padded_len(
                h + 1,
                bs,
            ));
            lemma_padded_len_props(h, bs);
            if 1 < bs - h % bs {
                lemma_padded_len_window(h, bs, 1);
            } else {
                lemma_padded_len_jump(h, bs);
            }
            vstd::arithmetic::div_mod::lemma_mod_self_0(bs);
            vstd::arithmetic::div_mod::lemma_small_mod(0, bs as nat);
        }
        assert forall|m: EcbOracle| #[trigger] obeys_ecb(oracle, m) implies diff as int % (
        block_size as int) == 0 by {
            lemma_obeys_padded_lengths(oracle, m);
        }
        let (s0, b0, a0) = choose|s0: int, b0: int, a0: int|
            #[trigger] probe_outcome(oracle, s0, b0, a0) && block_size == a0 - b0;
        assert(padding_verdict(oracle, diff as int % (block_size as int) == 0)) by {
            assert(probe_outcome(oracle, s0, b0, a0) && (oracle.spec_encrypt(fill(0u8, 0))
                matches Some(ea) && (oracle.spec_encrypt(fill(0u8, 1)) matches Some(eb) && (diff
                as int % (block_size as int) == 0) == ((if ea.len() >= eb.len() {
                ea.len() - eb.len()
            } else {
                eb.len() - ea.len()
            }) % (a0 - b0) == 0))));
        }
    }
    Ok(diff % block_size == 0)
}

/// Find the byte length of the hidden suffix: append filler bytes until
/// the ciphertext length first grows, which exposes the combined hidden
/// length, then take away the exactly-detected prefix length.
pub fn detect_suffix_len<T: Oracle>(oracle: &T) -> (r: Result<usize, AttackError>)
    ensures
        (r is Err ==> r == Err::<usize, AttackError>(AttackError::OracleQueryFailed) || r == Err::<usize, AttackError>(AttackError::IndeterminateBlockSize)),
        forall|m: EcbOracle| #[trigger]
            obeys_ecb(oracle, m) ==> r == Ok::<usize, AttackError>(m.suffix.len() as usize),
{
    let probe = match probe_length_change(oracle) {
        Ok(p) => p,
        Err(e) => {
            proof {
                assert forall|m: EcbOracle| !obeys_ecb(oracle, m) by {
                    if obeys_ecb(oracle, m) {
                        lemma_obeys_padded_lengths(oracle, m);
                    }
                }
            }
            return Err(e);
        },
    };
    let (steps, before, _after) = probe;
    if steps > before {
        // A compliant oracle pads by at most one block.
        proof {
            assert forall|m: EcbOracle| !obeys_ecb(oracle, m) by {
                if obeys_ecb(oracle, m) {
                    lemma_obeys_padded_lengths(oracle, m);
                    lemma_padded_len_props(m.hidden_len(), m.block_size);
                }
            }
        }
        return Err(AttackError::IndeterminateBlockSize);
    }
    let combined = before - steps;
    let prefix_len = detect_prefix_len(oracle)?;
    if prefix_len > combined {
        proof {
            assert forall|m: EcbOracle| !obeys_ecb(oracle, m) by {
                if obeys_ecb(oracle, m) {
                    lemma_obeys_padded_lengths(oracle, m);
                    lemma_padded_len_props(m.hidden_len(), m.block_size);
                }
            }
        }
        return Err(AttackError::IndeterminateBlockSize);
    }
    proof {
        assert forall|m: EcbOracle| #[trigger] obeys_ecb(oracle, m) implies combined - prefix_len
            == m.suffix.len() by {
            lemma_obeys_padded_lengths(oracle, m);
            lemma_padded_len_props(m.hidden_len(), m.block_size);
        }
    }
    Ok(combined - prefix_len)
}

/// Aligned 16-byte chunk `i` of `s`; the final chunk may be shorter.
pub open spec fn chunk_at(s: Seq<u8>, i: int) -> Seq<u8> {
    s.subrange(
        16 * i,
        if 16 * i + 16 <= s.len() {
            16 * i + 16
        } else {
            s.len() as int
        },
    )
}

/// How many 16-byte chunks `s` splits into, the ragged tail included.
pub open spec fn num_chunks(s: Seq<u8>) -> int {
    s.len() / 16 + if s.len() % 16 == 0 {
        0int
    } else {
        1int
    }
}

/// Two aligned 16-byte chunks of `s` coincide.
pub open spec fn has_repeated_chunk(s: Seq<u8>) -> bool {
    exists|i: int, j: int| 0 <= i < j < num_chunks(s) && chunk_at(s, i) == chunk_at(s, j)
}

/// Whether chunks `a` and `b` of the input coincide.
fn chunks_equal(input: &Vec<u8>, a: usize, b: usize) -> (r: bool)
    requires
        0 <= a < num_chunks(input@),
        0 <= b < num_chunks(input@),
    ensures
        r == (chunk_at(input@, a as int) == chunk_at(input@, b as int)),
{
    let len = input.len();
    let start_a = 16 * a;
    let start_b = 16 * b;
    let len_a = if len - start_a >= 16 {
        16
    } else {
        len - start_a
    };
    let len_b = if len - start_b >= 16 {
        16
    } else {
        len - start_b
    };
    if len_a != len_b {
        assert(chunk_at(input@, a as int).len() != chunk_at(input@, b as int).len());
        return false;
    }
    let mut t: usize = 0;
    while t < len_a
        invariant
            t <= len_a,
            start_a == 16 * a,
            start_b == 16 * b,
            start_a + len_a <= input@.len(),
            start_b + len_a <= input@.len(),
            len_a == chunk_at(input@, a as int).len(),
            len_a == chunk_at(input@, b as int).len(),
            forall|j: int| 0 <= j < t ==> #[trigger] input@[start_a + j] == input@[start_b + j],
        decreases len_a - t,
    {
        if input[start_a + t] != input[start_b + t] {
            assert(chunk_at(input@, a as int)[t as int] != chunk_at(input@, b as int)[t as int]);
            return false;
        }
        t = t + 1;
    }
    proof {
        assert forall|j: int| 0 <= j < len_a implies chunk_at(input@, a as int)[j] == chunk_at(
            input@,
            b as int,
        )[j] by {
            assert(chunk_at(input@, a as int)[j] == input@[start_a + j]);
            assert(chunk_at(input@, b as int)[j] == input@[start_b + j]);
            assert(input@[start_a + j] == input@[start_b + j]);
        }
        assert(chunk_at(input@, a as int) =~= chunk_at(input@, b as int));
    }
    true
}

/// Report whether the input, cut into aligned 16-byte chunks, repeats a
/// chunk anywhere: the signature of a fixed-codebook mode fed repeating
/// plaintext.
pub fn detect_ecb(input: &Vec<u8>) -> (r: bool)
    ensures
        r == has_repeated_chunk(input@),
{
    let len = input.len();
    let nc = len / 16 + if len % 16 == 0 {
        0
    } else {
        1
    };
    let mut a: usize = 0;
    while a < nc
        invariant
            a <= nc,
            nc == num_chunks(input@),
            forall|x: int, y: int| 0 <= x < y < nc && x < a ==> chunk_at(input@, x) != chunk_at(
                input@,
                y,
            ),
        decreases nc - a,
    {
        let mut b: usize = a + 1;
        while b < nc
            invariant
                a < b <= nc || b == a + 1,
                a < nc,
                nc == num_chunks(input@),
                forall|x: int, y: int| 0 <= x < y < nc && x < a ==> chunk_at(input@, x)
                    != chunk_at(input@, y),
                forall|y: int| a < y < b ==> chunk_at(input@, a as int) != chunk_at(input@, y),
            decreases nc - b,
        {
            if chunks_equal(input, a, b) {
                assert(has_repeated_chunk(input@));
                return true;
            }
            b = b + 1;
        }
        a = a + 1;
    }
    assert(!has_repeated_chunk(input@));
    false
}

proof fn lemma_mul_le_mono(a: int, b: int, c: int)
    requires
        0 <= a <= b,
        c >= 0,
    ensures
        a * c <= b * c,
{
    assert(a * c <= b * c) by (nonlinear_arith)
        requires
            0 <= a <= b,
            c >= 0,
    ;
}

/// Whether `n` bytes of `a` starting at `a_start` coincide with `n` bytes
/// of `b` starting at `b_start`.
fn ranges_equal(a: &Vec<u8>, b: &Vec<u8>, a_start: usize, b_start: usize, n: usize) -> (r: bool)
    requires
        a_start + n <= a@.len(),
        b_start + n <= b@.len(),
    ensures
        r == (a@.subrange(a_start as int, a_start + n) == b@.subrange(
            b_start as int,
            b_start + n,
        )),
{
    let a_len = a.len();
    let b_len = b.len();
    let mut t: usize = 0;
    while t < n
        invariant
            t <= n,
            a_len == a@.len(),
            b_len == b@.len(),
            a_start + n <= a@.len(),
            b_start + n <= b@.len(),
            forall|j: int| 0 <= j < t ==> #[trigger] a@[a_start + j] == b@[b_start + j],
        decreases n - t,
    {
        if a[a_start + t] != b[b_start + t] {
            assert(a@.subrange(a_start as int, a_start + n)[t as int] != b@.subrange(
                b_start as int,
                b_start + n,
            )[t as int]);
            return false;
        }
        t = t + 1;
    }
    proof {
        assert forall|j: int| 0 <= j < n implies #[trigger] a@.subrange(
            a_start as int,
            a_start + n,
        )[j] == b@.subrange(b_start as int, b_start + n)[j] by {
            assert(a@[a_start + j] == b@[b_start + j]);
        }
        assert(a@.subrange(a_start as int, a_start + n) =~= b@.subrange(
            b_start as int,
            b_start + n,
        ));
    }
    true
}

/// Classify the mode: encrypt three blocks of one repeated byte and look
/// for a repeated ciphertext chunk. Repetition implies fixed-codebook; its
/// absence is read as chained, a heuristic, since a chained mode repeats a
/// block only by coincidence. The verdict is always exactly the repeated-
/// chunk test of the observed ciphertext, and a 16-byte-block fixed-
/// codebook oracle is always reported as fixed-codebook.
pub fn detect_encryption_mode<T: Oracle>(oracle: &T) -> (r: Result<Mode, AttackError>)
    ensures
        (oracle.spec_encrypt(fill(0u8, 48)) matches Some(c) ==> r == Ok::<Mode, AttackError>(
            if has_repeated_chunk(c) {
                Mode::Ecb
            } else {
                Mode::Cbc
            },
        )),
        forall|m: EcbOracle|
            #[trigger] obeys_ecb(oracle, m) && m.block_size == 16 ==> r == Ok::<
                Mode,
                AttackError,
            >(Mode::Ecb),
{
    let input = make_fill(0u8, 48);
    let cipher = match oracle.encrypt(input.as_slice()) {
        Ok(c) => c,
        Err(e) => {
            proof {
                assert forall|m: EcbOracle| !obeys_ecb(oracle, m) by {
                    if obeys_ecb(oracle, m) {
                        lemma_probe_len(oracle, m, fill(0u8, 48));
                    }
                }
            }
            return Err(AttackError::OracleQueryFailed);
        },
    };
    let repeated = detect_ecb(&cipher);
    proof {
        assert forall|m: EcbOracle|
            #[trigger] obeys_ecb(oracle, m) && m.block_size == 16 implies repeated by {
            let h = m.hidden_len();
            let p = m.prefix.len() as int;
            let d = fill(0u8, 48);
            lemma_probe_len(oracle, m, d);
            lemma_padded_len_props(h + 48, 16);
            vstd::arithmetic::div_mod::lemma_fundamental_div_mod(p, 16);
            vstd::arithmetic::div_mod::lemma_mod_division_less_than_divisor(p, 16);
            let a = if p % 16 == 0 {
                p / 16
            } else {
                p / 16 + 1
            };
            assert(16 * a >= p && 16 * a <= p + 15);
            let t = cipher@.len() as int;
            assert(t == padded_len(h + 48, 16));
            assert(t >= h + 49);
            assert(16 * (a + 2) <= t);
            lemma_cipher_block(m, d, a);
            lemma_cipher_block(m, d, a + 1);
            assert(m.padded(d).subrange(a * 16, a * 16 + 16) =~= fill(0u8, 16));
            assert(m.padded(d).subrange((a + 1) * 16, (a + 1) * 16 + 16) =~= fill(0u8, 16));
            assert(cipher@.subrange(a * 16, a * 16 + 16) == cipher@.subrange(
                (a + 1) * 16,
                (a + 1) * 16 + 16,
            ));
            assert(t % 16 == 0);
            assert(num_chunks(cipher@) == t / 16);
            vstd::arithmetic::div_mod::lemma_div_is_ordered(16 * (a + 2), t, 16);
            vstd::arithmetic::div_mod::lemma_div_by_multiple(a + 2, 16);
            assert(a + 2 <= t / 16);
            assert(chunk_at(cipher@, a) =~= cipher@.subrange(16 * a, 16 * a + 16));
            assert(chunk_at(cipher@, a + 1) =~= cipher@.subrange(16 * (a + 1), 16 * (a + 1) + 16));
            assert(chunk_at(cipher@, a) == chunk_at(cipher@, a + 1));
            assert(has_repeated_chunk(cipher@));
        }
    }
    if repeated {
        Ok(Mode::Ecb)
    } else {
        Ok(Mode::Cbc)
    }
}

proof fn lemma_mul_gt_cancel(q: int, k: int, bs: int)
    requires
        bs > 0,
        bs * q > bs * k,
    ensures
        q > k,
{
    assert(q > k) by (nonlinear_arith)
        requires
            bs > 0,
            bs * q > bs * k,
    ;
}

/// Shape of the two one-byte probes under a fixed-codebook description:
/// every block wholly inside the prefix encrypts identically for both, and
/// the block holding the attacker byte differs.
proof fn lemma_prefix_probe_blocks(m: EcbOracle)
    requires
        m.wf(),
    ensures
        m.cipher(fill(0u8, 1)).len() == m.cipher(fill(1u8, 1)).len(),
        m.cipher(fill(0u8, 1)).len() == padded_len(m.hidden_len() + 1, m.block_size),
        (m.prefix.len() as int / m.block_size + 1) * m.block_size <= m.cipher(fill(0u8, 1)).len(),
        forall|j: int|
            0 <= j <= m.prefix.len() as int / m.block_size ==> (#[trigger] m.cipher(
                fill(0u8, 1),
            ).subrange(j * m.block_size, j * m.block_size + m.block_size) == m.cipher(
                fill(1u8, 1),
            ).subrange(j * m.block_size, j * m.block_size + m.block_size)) == (j < m.prefix.len()
                as int / m.block_size),
{
    let bs = m.block_size;
    let p = m.prefix.len() as int;
    let h = m.hidden_len();
    let kk = p / bs;
    let d0 = fill(0u8, 1);
    let d1 = fill(1u8, 1);
    lemma_cipher_len(m, d0);
    lemma_cipher_len(m, d1);
    lemma_padded_len_props(h + 1, bs);
    let t = padded_len(h + 1, bs);
    vstd::arithmetic::div_mod::lemma_fundamental_div_mod(p, bs);
    vstd::arithmetic::div_mod::lemma_mod_division_less_than_divisor(p, bs);
    assert(bs * kk <= p);
    let q = (h + 1) / bs + 1;
    assert(t == bs * q);
    assert(bs * q > bs * kk);
    lemma_mul_gt_cancel(q, kk, bs);
    lemma_mul_le_mono(kk + 1, q, bs);
    assert((kk + 1) * bs <= q * bs) by (nonlinear_arith)
        requires
            kk + 1 <= q,
            bs > 0,
    ;
    assert(q * bs == bs * q) by (nonlinear_arith);
    assert((kk + 1) * bs <= t);
    assert forall|j: int| 0 <= j <= kk implies (#[trigger] m.cipher(d0).subrange(
        j * bs,
        j * bs + bs,
    ) == m.cipher(d1).subrange(j * bs, j * bs + bs)) == (j < kk) by {
        assert((j + 1) * bs == j * bs + bs) by (nonlinear_arith);
        lemma_mul_le_mono(j + 1, kk + 1, bs);
        assert(j * bs >= 0) by (nonlinear_arith)
            requires
                j >= 0,
                bs > 0,
        ;
        lemma_cipher_block(m, d0, j);
        lemma_cipher_block(m, d1, j);
        let b0 = m.padded(d0).subrange(j * bs, j * bs + bs);
        let b1 = m.padded(d1).subrange(j * bs, j * bs + bs);
        if j < kk {
            assert(forall|u: int| 0 <= u < bs ==> #[trigger] b0[u] == m.padded(d0)[j * bs + u]);
            assert forall|u: int| 0 <= u < bs implies #[trigger] b0[u] == b1[u] by {
                lemma_mul_le_mono(j + 1, kk, bs);
                assert(j * bs + u < kk * bs <= p);
                assert(kk * bs == bs * kk) by (nonlinear_arith);
            }
            assert(b0 =~= b1);
        } else {
            assert(j == kk);
            assert(kk * bs == bs * kk) by (nonlinear_arith);
            assert(kk * bs <= p < kk * bs + bs);
            let u = p - kk * bs;
            assert(m.padded(d0)[p] == 0u8);
            assert(m.padded(d1)[p] == 1u8);
            assert(b0[u] == 0u8 && b1[u] == 1u8);
            assert(b0 != b1);
            if m.cipher(d0).subrange(j * bs, j * bs + bs) == m.cipher(d1).subrange(
                j * bs,
                j * bs + bs,
            ) {
                assert((m.codebook)(b0) == (m.codebook)(b1));
                assert(b0.len() == bs && b1.len() == bs);
                assert(false);
            }
        }
    }
}

/// Count the whole blocks occupied by the hidden prefix: two one-byte
/// inputs that differ only in value leave every all-prefix block unchanged,
/// and first disagree in the block where the attacker byte lands.
pub fn detect_prefix_blocks_count<T: Oracle>(oracle: &T) -> (r: Result<usize, AttackError>)
    ensures
        (r is Err ==> r == Err::<usize, AttackError>(AttackError::OracleQueryFailed) || r == Err::<usize, AttackError>(AttackError::IndeterminateBlockSize)),
        forall|m: EcbOracle| #[trigger]
            obeys_ecb(oracle, m) ==> r == Ok::<usize, AttackError>(
                (m.prefix.len() as int / m.block_size) as usize,
            ),
{
    let block_size = detect_blocksize(oracle)?;
    if block_size == 0 {
        return Err(AttackError::IndeterminateBlockSize);
    }
    let zero = make_fill(0u8, 1);
    let one = make_fill(1u8, 1);
    let c0 = match oracle.encrypt(zero.as_slice()) {
        Ok(c) => c,
        Err(e) => {
            proof {
                assert forall|m: EcbOracle| !obeys_ecb(oracle, m) by {
                    if obeys_ecb(oracle, m) {
                        lemma_probe_len(oracle, m, fill(0u8, 1));
                    }
                }
            }
            return Err(AttackError::OracleQueryFailed);
        },
    };
    let c1 = match oracle.encrypt(one.as_slice()) {
        Ok(c) => c,
        Err(e) => {
            proof {
                assert forall|m: EcbOracle| !obeys_ecb(oracle, m) by {
                    if obeys_ecb(oracle, m) {
                        lemma_probe_len(oracle, m, fill(1u8, 1));
                    }
                }
            }
            return Err(AttackError::OracleQueryFailed);
        },
    };
    let min_len = if c0.len() <= c1.len() {
        c0.len()
    } else {
        c1.len()
    };
    let n = min_len / block_size;
    let mut k: usize = 0;
    while k < n
        invariant
            k <= n,
            block_size >= 1,
            n == min_len as int / block_size as int,
            min_len <= c0@.len() && min_len <= c1@.len(),
            c0@.len() <= usize::MAX && c1@.len() <= usize::MAX,
            oracle.spec_encrypt(fill(0u8, 1)) == Some(c0@),
            oracle.spec_encrypt(fill(1u8, 1)) == Some(c1@),
            forall|m: EcbOracle| #[trigger]
                obeys_ecb(oracle, m) ==> block_size == m.block_size,
            forall|j: int|
                0 <= j < k ==> #[trigger] c0@.subrange(
                    j * block_size,
                    j * block_size + block_size,
                ) == c1@.subrange(j * block_size, j * block_size + block_size),
        decreases n - k,
    {
        proof {
            lemma_mul_le_mono(k + 1, n as int, block_size as int);
            vstd::arithmetic::div_mod::lemma_fundamental_div_mod(min_len as int, block_size as int);
            vstd::arithmetic::div_mod::lemma_mod_division_less_than_divisor(
                min_len as int,
                block_size as int,
            );
            assert((k + 1) * block_size == k * block_size + block_size) by (nonlinear_arith);
            assert(n as int * block_size as int == block_size as int * n as int)
                by (nonlinear_arith);
            assert((k + 1) * block_size <= min_len);
        }
        let start = k * block_size;
        if !ranges_equal(&c0, &c1, start, start, block_size) {
            proof {
                assert forall|m: EcbOracle| #[trigger] obeys_ecb(oracle, m) implies k as int
                    == m.prefix.len() as int / m.block_size by {
                    lemma_probe_len(oracle, m, fill(0u8, 1));
                    lemma_probe_len(oracle, m, fill(1u8, 1));
                    lemma_prefix_probe_blocks(m);
                    let kk = m.prefix.len() as int / m.block_size;
                    if (k as int) < kk {
                        assert(c0@.subrange(k * block_size, k * block_size + block_size)
                            == c1@.subrange(k * block_size, k * block_size + block_size));
                        assert(false);
                    } else if (k as int) > kk {
                        assert(c0@.subrange(kk * m.block_size, kk * m.block_size + m.block_size)
                            != c1@.subrange(kk * m.block_size, kk * m.block_size + m.block_size));
                        assert(false);
                    }
                }
            }
            return Ok(k);
        }
        k = k + 1;
    }
    proof {
        assert forall|m: EcbOracle| !obeys_ecb(oracle, m) by {
            if obeys_ecb(oracle, m) {
                lemma_probe_len(oracle, m, fill(0u8, 1));
                lemma_probe_len(oracle, m, fill(1u8, 1));
                lemma_prefix_probe_blocks(m);
                let bs = m.block_size;
                let kk = m.prefix.len() as int / bs;
                let t = c0@.len() as int;
                assert((kk + 1) * bs <= t);
                vstd::arithmetic::div_mod::lemma_div_is_ordered((kk + 1) * bs, min_len as int, bs);
                vstd::arithmetic::div_mod::lemma_div_by_multiple(kk + 1, bs);
                assert(kk + 1 <= n);
                assert(c0@.subrange(kk * bs, kk * bs + bs) != c1@.subrange(kk * bs, kk * bs + bs));
            }
        }
    }
    Err(AttackError::IndeterminateBlockSize)
}

/// The byte that follows the attacker's filler once the filler no longer
/// covers the rest of the prefix's partial block: the first suffix byte, or
/// the one-byte pad that a block-aligned message gets there.
pub open spec fn probe_entry_byte(m: EcbOracle) -> u8 {
    if m.suffix.len() > 0 {
        m.suffix[0]
    } else {
        1u8
    }
}

/// Shape of the filler probes that refine the prefix length. Writing `q`
/// for `prefix length % block size` and `K` for `prefix length / block
/// size`: while at least `block size - q` filler bytes remain, block `K` of
/// the ciphertext equals block `K` of the full-block probe; at exactly
/// `block size - q - 1` filler bytes it equals it exactly when the entering
/// byte coincides with the filler.
proof fn lemma_prefix_fill_blocks(m: EcbOracle, c: u8, i: int)
    requires
        m.wf(),
        0 <= i < m.block_size,
    ensures
        ({
            let bs = m.block_size;
            let p = m.prefix.len() as int;
            let kk = p / bs;
            let q = p % bs;
            let full = m.cipher(fill(c, bs));
            let probe = m.cipher(fill(c, bs - 1 - i));
            &&& full.len() >= (kk + 1) * bs
            &&& probe.len() >= (kk + 1) * bs
            &&& (i < q ==> probe.subrange(kk * bs, kk * bs + bs) == full.subrange(
                kk * bs,
                kk * bs + bs,
            ))
            &&& (i == q ==> (probe.subrange(kk * bs, kk * bs + bs) == full.subrange(
                kk * bs,
                kk * bs + bs,
            )) == (probe_entry_byte(m) == c))
        }),
{
    let bs = m.block_size;
    let p = m.prefix.len() as int;
    let s = m.suffix.len() as int;
    let kk = p / bs;
    let q = p % bs;
    let dfull = fill(c, bs);
    let dprobe = fill(c, bs - 1 - i);
    lemma_cipher_len(m, dfull);
    lemma_cipher_len(m, dprobe);
    vstd::arithmetic::div_mod::lemma_fundamental_div_mod(p, bs);
    vstd::arithmetic::div_mod::lemma_mod_division_less_than_divisor(p, bs);
    assert(kk * bs == bs * kk) by (nonlinear_arith);
    assert((kk + 1) * bs == kk * bs + bs) by (nonlinear_arith);
    assert(m.cipher(dfull).len() >= (kk + 1) * bs);
    let ctot2 = p + s + (bs - 1 - i);
    lemma_padded_len_props(ctot2, bs);
    let qq = ctot2 / bs + 1;
    assert(m.cipher(dprobe).len() == bs * qq);
    assert(bs * qq > bs * kk);
    lemma_mul_gt_cancel(qq, kk, bs);
    assert((kk + 1) * bs <= bs * qq) by (nonlinear_arith)
        requires
            kk + 1 <= qq,
            bs > 0,
    ;
    assert(m.cipher(dprobe).len() >= (kk + 1) * bs);
    lemma_cipher_block(m, dfull, kk);
    lemma_cipher_block(m, dprobe, kk);
    let bfull = m.padded(dfull).subrange(kk * bs, kk * bs + bs);
    let bprobe = m.padded(dprobe).subrange(kk * bs, kk * bs + bs);
    assert(bfull.len() == bs && bprobe.len() == bs);
    // Block kk of the full-block probe: prefix tail, then filler.
    assert(forall|u: int| 0 <= u < q ==> #[trigger] bfull[u] == m.prefix[kk * bs + u]);
    assert(forall|u: int| q <= u < bs ==> #[trigger] bfull[u] == c);
    if i < q {
        assert forall|u: int| 0 <= u < bs implies #[trigger] bprobe[u] == bfull[u] by {
            if u >= q {
                assert(p <= kk * bs + u < p + (bs - 1 - i));
            }
        }
        assert(bprobe =~= bfull);
        assert(m.cipher(dprobe).subrange(kk * bs, kk * bs + bs) == m.cipher(dfull).subrange(
            kk * bs,
            kk * bs + bs,
        ));
    }
    if i == q {
        let last = kk * bs + bs - 1;
        assert(last == p + (bs - 1 - q));
        if s > 0 {
            assert(m.padded(dprobe)[last] == m.suffix[0]);
        } else {
            let ctot = p + (bs - 1 - q);
            assert(ctot == (kk + 1) * bs - 1);
            vstd::arithmetic::div_mod::lemma_fundamental_div_mod_converse(ctot, bs, kk, bs - 1);
            assert(padded_len(ctot, bs) == ctot + 1);
            assert(m.padded(dprobe)[last] == 1u8);
        }
        assert(bprobe[bs - 1] == probe_entry_byte(m));
        assert(bfull[bs - 1] == c);
        if probe_entry_byte(m) == c {
            assert forall|u: int| 0 <= u < bs implies #[trigger] bprobe[u] == bfull[u] by {
                if q <= u < bs - 1 {
                    assert(p <= kk * bs + u < p + (bs - 1 - q));
                    assert(bprobe[u] == c);
                }
            }
            assert(bprobe =~= bfull);
            assert(m.cipher(dprobe).subrange(kk * bs, kk * bs + bs) == m.cipher(dfull).subrange(
                kk * bs,
                kk * bs + bs,
            ));
        } else {
            assert(bprobe != bfull);
            if m.cipher(dprobe).subrange(kk * bs, kk * bs + bs) == m.cipher(dfull).subrange(
                kk * bs,
                kk * bs + bs,
            ) {
                assert((m.codebook)(bprobe) == (m.codebook)(bfull));
                assert(false);
            }
        }
    }
}

/// The stabilization probe for one filler value: encrypt a full block of the
/// filler, then shrink the filler one byte at a time and watch block
/// `blocks` of the ciphertext; report how many bytes could be removed before
/// that block first moved. Returns the block offset in bytes and the count.
fn prefix_fill_count<T: Oracle>(oracle: &T, block_size: usize, blocks: usize, filler: u8) -> (r:
    Result<(usize, usize), AttackError>)
    requires
        1 <= block_size,
    ensures
        (r is Err ==> r == Err::<(usize, usize), AttackError>(AttackError::OracleQueryFailed) || r == Err::<(usize, usize), AttackError>(AttackError::IndeterminateBlockSize)),
        (r matches Ok(pair) ==> pair.0 == blocks * block_size && pair.1 <= block_size && pair.0
            + block_size <= usize::MAX),
        forall|m: EcbOracle| #[trigger]
            obeys_ecb(oracle, m) && m.block_size == block_size && blocks == m.prefix.len() as int
                / m.block_size ==> (r matches Ok(pair) && {
                let q = m.prefix.len() as int % m.block_size;
                &&& q <= pair.1
                &&& (probe_entry_byte(m) != filler ==> pair.1 == q)
            }),
{
    let cblock = make_fill(filler, block_size);
    let initial = match oracle.encrypt(cblock.as_slice()) {
        Ok(ct) => ct,
        Err(e) => {
            proof {
                assert forall|m: EcbOracle|
                    !(obeys_ecb(oracle, m) && m.block_size == block_size && blocks
                        == m.prefix.len() as int / m.block_size) by {
                    if obeys_ecb(oracle, m) && m.block_size == block_size {
                        lemma_probe_len(oracle, m, fill(filler, block_size as int));
                    }
                }
            }
            return Err(AttackError::OracleQueryFailed);
        },
    };
    let initial_len = initial.len();
    if blocks >= initial_len / block_size {
        proof {
            assert forall|m: EcbOracle|
                !(obeys_ecb(oracle, m) && m.block_size == block_size && blocks == m.prefix.len()
                    as int / m.block_size) by {
                if obeys_ecb(oracle, m) && m.block_size == block_size && blocks == m.prefix.len()
                    as int / m.block_size {
                    lemma_probe_len(oracle, m, fill(filler, block_size as int));
                    lemma_prefix_fill_blocks(m, filler, 0);
                    let bs = m.block_size;
                    let kk = m.prefix.len() as int / bs;
                    vstd::arithmetic::div_mod::lemma_div_is_ordered(
                        (kk + 1) * bs,
                        initial_len as int,
                        bs,
                    );
                    vstd::arithmetic::div_mod::lemma_div_by_multiple(kk + 1, bs);
                    assert(kk + 1 <= initial_len as int / bs);
                    assert(false);
                }
            }
        }
        return Err(AttackError::IndeterminateBlockSize);
    }
    proof {
        vstd::arithmetic::div_mod::lemma_fundamental_div_mod(initial_len as int, block_size as int);
        vstd::arithmetic::div_mod::lemma_mod_division_less_than_divisor(
            initial_len as int,
            block_size as int,
        );
        lemma_mul_le_mono(blocks as int + 1, initial_len as int / block_size as int,
            block_size as int);
        assert((blocks + 1) * block_size == blocks * block_size + block_size) by (nonlinear_arith);
        assert((initial_len as int / block_size as int) * block_size == block_size as int * (
        initial_len as int / block_size as int)) by (nonlinear_arith);
    }
    let offset = blocks * block_size;
    let mut i: usize = 0;
    while i < block_size
        invariant
            i <= block_size,
            1 <= block_size,
            offset == blocks * block_size,
            offset + block_size <= initial_len,
            initial_len == initial@.len(),
            oracle.spec_encrypt(fill(filler, block_size as int)) == Some(initial@),
            forall|j: int|
                0 <= j < i ==> ((#[trigger] oracle.spec_encrypt(
                    fill(filler, block_size - 1 - j),
                )) matches Some(cur) && cur.len() >= offset + block_size && cur.subrange(
                    offset as int,
                    offset + block_size,
                ) == initial@.subrange(offset as int, offset + block_size)),
        decreases block_size - i,
    {
        let probe = make_fill(filler, block_size - 1 - i);
        let current = match oracle.encrypt(probe.as_slice()) {
            Ok(ct) => ct,
            Err(e) => {
                proof {
                    assert forall|m: EcbOracle|
                        !(obeys_ecb(oracle, m) && m.block_size == block_size && blocks
                            == m.prefix.len() as int / m.block_size) by {
                        if obeys_ecb(oracle, m) && m.block_size == block_size {
                            lemma_probe_len(oracle, m, fill(filler, block_size - 1 - i));
                        }
                    }
                }
                return Err(AttackError::OracleQueryFailed);
            },
        };
        let moved = if current.len() < offset + block_size {
            true
        } else {
            !ranges_equal(&initial, &current, offset, offset, block_size)
        };
        if moved {
            proof {
                assert forall|m: EcbOracle| #[trigger]
                    obeys_ecb(oracle, m) && m.block_size == block_size && blocks == m.prefix.len()
                        as int / m.block_size implies {
                    let q = m.prefix.len() as int % m.block_size;
                    &&& q <= i as int
                    &&& (probe_entry_byte(m) != filler ==> i as int == q)
                } by {
                    let bs = m.block_size;
                    let kk = m.prefix.len() as int / bs;
                    let q = m.prefix.len() as int % m.block_size;
                    lemma_probe_len(oracle, m, fill(filler, block_size as int));
                    lemma_probe_len(oracle, m, fill(filler, block_size - 1 - i));
                    lemma_prefix_fill_blocks(m, filler, i as int);
                    assert((kk + 1) * bs == kk * bs + bs) by (nonlinear_arith);
                    if (i as int) < q {
                        assert(false);
                    }
                    if probe_entry_byte(m) != filler && (i as int) > q {
                        assert(oracle.spec_encrypt(fill(filler, block_size - 1 - q)) matches Some(
                            cur,
                        ) && cur.subrange(offset as int, offset + block_size) == initial@.subrange(
                            offset as int,
                            offset + block_size,
                        ));
                        lemma_probe_len(oracle, m, fill(filler, bs - 1 - q));
                        lemma_prefix_fill_blocks(m, filler, q);
                        assert(false);
                    }
                }
            }
            return Ok((offset, i));
        }
        i = i + 1;
    }
    proof {
        assert forall|m: EcbOracle| #[trigger]
            obeys_ecb(oracle, m) && m.block_size == block_size && blocks == m.prefix.len() as int
                / m.block_size implies {
            let q = m.prefix.len() as int % m.block_size;
            &&& q <= block_size as int
            &&& (probe_entry_byte(m) != filler ==> block_size as int == q)
        } by {
            let bs = m.block_size;
            let q = m.prefix.len() as int % m.block_size;
            vstd::arithmetic::div_mod::lemma_mod_division_less_than_divisor(
                m.prefix.len() as int,
                bs,
            );
            if probe_entry_byte(m) != filler {
                let kk = m.prefix.len() as int / bs;
                assert((kk + 1) * bs == kk * bs + bs) by (nonlinear_arith);
                assert(oracle.spec_encrypt(fill(filler, block_size - 1 - q)) matches Some(cur)
                    && cur.subrange(offset as int, offset + block_size) == initial@.subrange(
                    offset as int,
                    offset + block_size,
                ));
                lemma_probe_len(oracle, m, fill(filler, block_size as int));
                lemma_probe_len(oracle, m, fill(filler, bs - 1 - q));
                lemma_prefix_fill_blocks(m, filler, q);
                assert(false);
            }
        }
    }
    Ok((offset, block_size))
}

/// Find the exact byte length of the hidden prefix: refine the block count
/// with two independent filler values and keep the smaller stabilization
/// point, so a prefix or suffix byte that happens to equal one filler
/// cannot fake an early stabilization.
pub fn detect_prefix_len<T: Oracle>(oracle: &T) -> (r: Result<usize, AttackError>)
    ensures
        (r is Err ==> r == Err::<usize, AttackError>(AttackError::OracleQueryFailed) || r == Err::<usize, AttackError>(AttackError::IndeterminateBlockSize)),
        forall|m: EcbOracle| #[trigger]
            obeys_ecb(oracle, m) ==> r == Ok::<usize, AttackError>(m.prefix.len() as usize),
{
    let block_size = detect_blocksize(oracle)?;
    if block_size == 0 {
        return Err(AttackError::IndeterminateBlockSize);
    }
    let blocks = detect_prefix_blocks_count(oracle)?;
    let with_zero = prefix_fill_count(oracle, block_size, blocks, 0)?;
    let with_one = prefix_fill_count(oracle, block_size, blocks, 1)?;
    let min_fill = if with_zero.1 <= with_one.1 {
        with_zero.1
    } else {
        with_one.1
    };
    proof {
        assert forall|m: EcbOracle| #[trigger] obeys_ecb(oracle, m) implies with_zero.0 + min_fill
            == m.prefix.len() by {
            vstd::arithmetic::div_mod::lemma_fundamental_div_mod(
                m.prefix.len() as int,
                m.block_size,
            );
            assert((m.prefix.len() as int / m.block_size) * m.block_size == m.block_size * (
            m.prefix.len() as int / m.block_size)) by (nonlinear_arith);
        }
    }
    Ok(with_zero.0 + min_fill)
}

/// Find the combined hidden length (prefix plus suffix) from the padding
/// behavior: when padding is inactive the initial ciphertext length is
/// exact; when it is active, probe with growing filler until the length
/// first changes and subtract the padding that was still free. The promise
/// holds for any oracle with a padded-length profile, whatever its mode;
/// an oracle whose length never changes is reported as indeterminate.
pub fn detect_prefix_plus_suffix_len<T: Oracle>(oracle: &T) -> (r: Result<usize, AttackError>)
    ensures
        forall|h: int, bs: int| #[trigger]
            obeys_padded_lengths(oracle, h, bs) ==> r == Ok::<usize, AttackError>(h as usize),
        forall|m: EcbOracle| #[trigger]
            obeys_ecb(oracle, m) ==> r == Ok::<usize, AttackError>(m.hidden_len() as usize),
        (r matches Ok(v) ==> (padding_verdict(oracle, false) && (oracle.spec_encrypt(
            fill(0u8, 0),
        ) matches Some(c0) && v == c0.len())) || (exists|s: int, b: int, a: int|
            #[trigger] probe_outcome(oracle, s, b, a) && s <= a - b && v == b - s)),
        length_never_changes(oracle) ==> r == Err::<usize, AttackError>(
            AttackError::IndeterminateBlockSize,
        ),
{
    let empty: Vec<u8> = Vec::new();
    proof {
        assert(empty@ =~= fill(0u8, 0));
    }
    let initial = match oracle.encrypt(empty.as_slice()) {
        Ok(c) => c,
        Err(e) => {
            proof {
                assert forall|h: int, bs: int| !obeys_padded_lengths(oracle, h, bs) by {
                    if obeys_padded_lengths(oracle, h, bs) {
                        assert(oracle.spec_encrypt(fill(0u8, 0)) matches Some(c));
                    }
                }
                assert forall|m: EcbOracle| !obeys_ecb(oracle, m) by {
                    if obeys_ecb(oracle, m) {
                        lemma_obeys_padded_lengths(oracle, m);
                    }
                }
                assert(!length_never_changes(oracle)) by {
                    if length_never_changes(oracle) {
                        assert(oracle.spec_encrypt(fill(0u8, 0)) matches Some(c));
                    }
                }
            }
            return Err(AttackError::OracleQueryFailed);
        },
    };
    let initial_size = initial.len();
    let padding = match detect_padding(oracle) {
        Ok(p) => p,
        Err(e) => {
            proof {
                assert forall|h: int, bs: int| !obeys_padded_lengths(oracle, h, bs) by {
                    if obeys_padded_lengths(oracle, h, bs) {
                        assert(false);
                    }
                }
                assert forall|m: EcbOracle| !obeys_ecb(oracle, m) by {
                    if obeys_ecb(oracle, m) {
                        lemma_obeys_padded_lengths(oracle, m);
                    }
                }
            }
            return Err(e);
        },
    };
    if !padding {
        proof {
            assert forall|h: int, bs: int| !obeys_padded_lengths(oracle, h, bs) by {
                if obeys_padded_lengths(oracle, h, bs) {
                    assert(false);
                }
            }
            assert forall|m: EcbOracle| !obeys_ecb(oracle, m) by {
                if obeys_ecb(oracle, m) {
                    lemma_obeys_padded_lengths(oracle, m);
                }
            }
            assert(!length_never_changes(oracle)) by {
                if length_never_changes(oracle) {
                    assert(false);
                }
            }
            assert(padding_verdict(oracle, false) && (oracle.spec_encrypt(fill(0u8, 0))
                matches Some(c0) && initial_size == c0.len()));
        }
        return Ok(initial_size);
    }
    let probe = match probe_length_change(oracle) {
        Ok(p) => p,
        Err(e) => {
            proof {
                assert forall|m: EcbOracle| !obeys_ecb(oracle, m) by {
                    if obeys_ecb(oracle, m) {
                        lemma_obeys_padded_lengths(oracle, m);
                    }
                }
            }
            return Err(e);
        },
    };
    let (steps, before, after) = probe;
    if steps < 1 || steps > before || before != initial_size || after <= before || steps > after
        - before {
        // The length either misbehaved or, per the detected block size,
        // first changed only past a full block of filler: report it.
        proof {
            assert forall|h: int, bs: int| !obeys_padded_lengths(oracle, h, bs) by {
                if obeys_padded_lengths(oracle, h, bs) {
                    assert(oracle.spec_encrypt(fill(0u8, 0)) matches Some(c) && c.len()
                        == padded_len(h + 0, bs));
                    lemma_padded_len_props(h, bs);
                    vstd::arithmetic::div_mod::lemma_mod_division_less_than_divisor(h, bs);
                }
            }
            assert forall|m: EcbOracle| !obeys_ecb(oracle, m) by {
                if obeys_ecb(oracle, m) {
                    lemma_obeys_padded_lengths(oracle, m);
                }
            }
            assert(!length_never_changes(oracle)) by {
                if length_never_changes(oracle) {
                    assert(false);
                }
            }
        }
        return Err(AttackError::IndeterminateBlockSize);
    }
    proof {
        assert(probe_outcome(oracle, steps as int, before as int, after as int) && steps as int
            <= after - before && (initial_size - steps) as int == before - steps);
    }
    proof {
        assert forall|h: int, bs: int| #[trigger] obeys_padded_lengths(oracle, h, bs)
            implies initial_size - steps == h by {
            assert(oracle.spec_encrypt(fill(0u8, 0)) matches Some(c) && c.len() == padded_len(
                h + 0,
                bs,
            ));
            lemma_padded_len_props(h, bs);
        }
        assert forall|m: EcbOracle| #[trigger] obeys_ecb(oracle, m) implies initial_size - steps
            == m.hidden_len() by {
            lemma_obeys_padded_lengths(oracle, m);
        }
        assert(!length_never_changes(oracle)) by {
            if length_never_changes(oracle) {
                assert(false);
            }
        }
    }
    Ok(initial_size - steps)
}

} // verus!
