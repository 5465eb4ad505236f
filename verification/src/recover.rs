use vstd::arithmetic::div_mod::{
    lemma_fundamental_div_mod, lemma_mod_division_less_than_divisor,
};
use vstd::prelude::*;

use crate::detect::{detect_blocksize, detect_suffix_len, probe_outcome};
use crate::errors::AttackError;
use crate::oracle::{
    fill, lemma_cipher_block, lemma_cipher_len, obeys_ecb, EcbOracle, Oracle,
};

verus! {

/// The plaintext block that the dictionary submits for candidate byte `c`:
/// filler, then the tail of the recovered bytes, then `c`, all squeezed into
/// the last `bs` positions.
pub open spec fn probe_block(known: Seq<u8>, bs: int, c: u8) -> Seq<u8>
    recommends
        bs >= 1,
{
    let base = fill(65u8, bs) + known;
    base.subrange(base.len() - (bs - 1), base.len() as int).push(c)
}

/// Byte `k` of the recovered sequence was confirmed by an observed
/// dictionary match: the oracle's reply for the aligning filler payload
/// carries, at the watched block, exactly the first block of its reply for
/// the probe block ending in that byte.
pub open spec fn recovered_byte_checked<T: Oracle>(o: &T, rec: Seq<u8>, bs: int, k: int) -> bool {
    let pay = bs - 1 - k % bs;
    let start = (k / bs) * bs;
    (#[trigger] o.spec_encrypt(probe_block(rec.take(k), bs, rec[k]))) matches Some(dt) && (
    dt.len() >= bs && (o.spec_encrypt(fill(65u8, pay)) matches Some(ct) && (ct.len() >= start + bs
        && ct.subrange(start, start + bs) == dt.take(bs))))
}

/// Every byte of the recovered sequence was confirmed by an observed
/// dictionary match, so no unconfirmed byte is ever reported.
pub open spec fn recovered_by_matches<T: Oracle>(o: &T, rec: Seq<u8>, bs: int) -> bool {
    forall|k: int| 0 <= k < rec.len() ==> #[trigger] recovered_byte_checked(o, rec, bs, k)
}

/// At the position after `rec`, no candidate byte's dictionary block
/// reproduces the watched ciphertext block: the situation in which a
/// recovery run stops with `NoDictionaryMatch` instead of reporting a
/// wrong byte.
pub open spec fn no_dict_match<T: Oracle>(o: &T, rec: Seq<u8>, bs: int) -> bool {
    let pay = bs - 1 - rec.len() as int % bs;
    let start = (rec.len() as int / bs) * bs;
    forall|c: u8|
        (#[trigger] o.spec_encrypt(probe_block(rec, bs, c))) matches Some(dt) && (o.spec_encrypt(
            fill(65u8, pay),
        ) matches Some(ct) && (ct.len() >= start + bs && ct.subrange(start, start + bs)
            != dt.take(bs)))
}

/// Whether the dictionary entry opens with exactly the bytes of `block`.
fn entry_matches(entry: &Vec<u8>, block: &[u8]) -> (r: bool)
    requires
        entry@.len() >= block@.len(),
    ensures
        r == (entry@.take(block@.len() as int) == block@),
{
    let n = block.len();
    let mut j: usize = 0;
    while j < n
        invariant
            j <= n,
            n == block@.len(),
            entry@.len() >= n,
            forall|u: int| 0 <= u < j ==> entry@[u] == block@[u],
        decreases n - j,
    {
        if entry[j] != block[j] {
            assert(entry@.take(n as int)[j as int] != block@[j as int]);
            return false;
        }
        j = j + 1;
    }
    proof {
        assert forall|u: int| 0 <= u < n implies #[trigger] entry@.take(n as int)[u]
            == block@[u] by {
            assert(entry@[u] == block@[u]);
        }
        assert(entry@.take(n as int) =~= block@);
    }
    true
}

/// Scan the 256-entry dictionary for the first entry that opens with the
/// target block; its index is the recovered byte. A missing match is
/// terminal for this recovery run, not fatal.
pub fn find_char_in_dict(dict: &Vec<Vec<u8>>, block: &[u8]) -> (r: Result<u8, AttackError>)
    requires
        dict@.len() == 256,
        forall|i: int| 0 <= i < 256 ==> (#[trigger] dict@[i])@.len() >= block@.len(),
    ensures
        (r matches Ok(c) && {
            &&& (dict@[c as int])@.take(block@.len() as int) == block@
            &&& forall|i: int|
                0 <= i < c ==> (#[trigger] dict@[i])@.take(block@.len() as int) != block@
        }) || (r == Err::<u8, AttackError>(AttackError::NoDictionaryMatch) && forall|i: int|
            0 <= i < 256 ==> (#[trigger] dict@[i])@.take(block@.len() as int) != block@),
{
    let mut i: usize = 0;
    while i < 256
        invariant
            i <= 256,
            dict@.len() == 256,
            forall|u: int| 0 <= u < 256 ==> (#[trigger] dict@[u])@.len() >= block@.len(),
            forall|u: int| 0 <= u < i ==> (#[trigger] dict@[u])@.take(block@.len() as int)
                != block@,
        decreases 256 - i,
    {
        if entry_matches(&dict[i], block) {
            return Ok(i as u8);
        }
        i = i + 1;
    }
    Err(AttackError::NoDictionaryMatch)
}

/// Build the 256-entry guessing dictionary: for every candidate byte, ask
/// the oracle for the one-block ciphertext of filler, recovered tail, and
/// the candidate, and record its first block. Rebuilt fresh for every
/// recovered byte, because its content depends on the recovered tail.
pub fn build_dict<T: Oracle>(known: &Vec<u8>, oracle: &T, block_size: usize) -> (r: Result<
    Vec<Vec<u8>>,
    AttackError,
>)
    requires
        1 <= block_size <= 255,
        known@.len() + 300 <= usize::MAX,
    ensures
        (r is Err ==> r == Err::<Vec<Vec<u8>>, AttackError>(AttackError::OracleQueryFailed) || r == Err::<Vec<Vec<u8>>, AttackError>(AttackError::IndeterminateBlockSize)),
        (r matches Ok(d) ==> d@.len() == 256 && forall|i: int|
            0 <= i < 256 ==> (#[trigger] d@[i])@.len() == block_size),
        (r matches Ok(d) ==> forall|c: int|
            0 <= c < 256 ==> ((#[trigger] oracle.spec_encrypt(
                probe_block(known@, block_size as int, c as u8),
            )) matches Some(ct) && ct.len() >= block_size && (d@[c])@ == ct.take(
                block_size as int,
            ))),
        forall|m: EcbOracle| #[trigger]
            obeys_ecb(oracle, m) && m.prefix.len() == 0 && m.block_size == block_size ==> (
            r matches Ok(d) && forall|c: int|
                0 <= c < 256 ==> (#[trigger] d@[c])@ == (m.codebook)(
                    probe_block(known@, block_size as int, c as u8),
                )),
{
    let k = known.len();
    let mut tail: Vec<u8> = Vec::new();
    let mut t: usize = 0;
    while t + 1 < block_size
        invariant
            1 <= block_size <= 255,
            t <= block_size - 1,
            k == known@.len(),
            k + 300 <= usize::MAX,
            tail@.len() == t,
            forall|j: int|
                0 <= j < t ==> tail@[j] == (if k + 1 + j < block_size {
                    65u8
                } else {
                    known@[k + 1 + j - block_size]
                }),
        decreases block_size - t,
    {
        let idx = k + 1 + t;
        if idx < block_size {
            tail.push(65u8);
        } else {
            tail.push(known[idx - block_size]);
        }
        t = t + 1;
    }
    let mut out: Vec<Vec<u8>> = Vec::new();
    let mut c: usize = 0;
    while c < 256
        invariant
            c <= 256,
            1 <= block_size <= 255,
            k == known@.len(),
            k + 300 <= usize::MAX,
            tail@.len() == block_size - 1,
            forall|j: int|
                0 <= j < block_size - 1 ==> tail@[j] == (if k + 1 + j < block_size {
                    65u8
                } else {
                    known@[k + 1 + j - block_size]
                }),
            out@.len() == c,
            forall|i: int| 0 <= i < c ==> (#[trigger] out@[i])@.len() == block_size,
            forall|i: int|
                0 <= i < c ==> ((#[trigger] oracle.spec_encrypt(
                    probe_block(known@, block_size as int, i as u8),
                )) matches Some(ct) && ct.len() >= block_size && (out@[i])@ == ct.take(
                    block_size as int,
                )),
            forall|m: EcbOracle| #[trigger]
                obeys_ecb(oracle, m) && m.prefix.len() == 0 && m.block_size == block_size
                    ==> forall|i: int|
                    0 <= i < c ==> (#[trigger] out@[i])@ == (m.codebook)(
                        probe_block(known@, block_size as int, i as u8),
                    ),
        decreases 256 - c,
    {
        let mut block: Vec<u8> = Vec::new();
        let mut j: usize = 0;
        while j + 1 < block_size
            invariant
                j <= block_size - 1,
                tail@.len() == block_size - 1,
                block@.len() == j,
                forall|u: int| 0 <= u < j ==> block@[u] == tail@[u],
            decreases block_size - j,
        {
            block.push(tail[j]);
            j = j + 1;
        }
        block.push(c as u8);
        proof {
            let bs = block_size as int;
            let base = fill(65u8, bs) + known@;
            assert forall|u: int| 0 <= u < bs - 1 implies block@[u] == base[k + 1 + u] by {
                if k + 1 + u < bs {
                    assert(base[k + 1 + u] == fill(65u8, bs)[k + 1 + u]);
                } else {
                    assert(base[k + 1 + u] == known@[k + 1 + u - bs]);
                }
            }
            assert(block@ =~= probe_block(known@, bs, c as u8));
        }
        let ct = match oracle.encrypt(block.as_slice()) {
            Ok(x) => x,
            Err(e) => {
                proof {
                    assert forall|m: EcbOracle|
                        !(obeys_ecb(oracle, m) && m.prefix.len() == 0 && m.block_size
                            == block_size) by {
                        if obeys_ecb(oracle, m) && m.block_size == block_size {
                            lemma_cipher_len(m, block@);
                            assert(oracle.spec_encrypt(block@) == Some(m.cipher(block@)));
                        }
                    }
                }
                return Err(AttackError::OracleQueryFailed);
            },
        };
        if ct.len() < block_size {
            proof {
                assert forall|m: EcbOracle|
                    !(obeys_ecb(oracle, m) && m.prefix.len() == 0 && m.block_size == block_size)
                    by {
                    if obeys_ecb(oracle, m) && m.block_size == block_size {
                        lemma_cipher_len(m, block@);
                        assert(oracle.spec_encrypt(block@) == Some(m.cipher(block@)));
                    }
                }
            }
            return Err(AttackError::IndeterminateBlockSize);
        }
        let mut cblock: Vec<u8> = Vec::new();
        let mut u: usize = 0;
        while u < block_size
            invariant
                u <= block_size,
                block_size <= ct@.len(),
                cblock@.len() == u,
                forall|v: int| 0 <= v < u ==> cblock@[v] == ct@[v],
            decreases block_size - u,
        {
            cblock.push(ct[u]);
            u = u + 1;
        }
        proof {
            assert(cblock@ =~= ct@.subrange(0, block_size as int));
            assert(oracle.spec_encrypt(probe_block(known@, block_size as int, c as u8))
                matches Some(x) && x == ct@);
            assert(ct@.take(block_size as int) == ct@.subrange(0, block_size as int));
            assert forall|m: EcbOracle| #[trigger]
                obeys_ecb(oracle, m) && m.prefix.len() == 0 && m.block_size == block_size
                    implies cblock@ == (m.codebook)(
                probe_block(known@, block_size as int, c as u8),
            ) by {
                lemma_cipher_len(m, block@);
                assert(oracle.spec_encrypt(block@) == Some(m.cipher(block@)));
                lemma_cipher_block(m, block@, 0);
                assert(m.padded(block@).subrange(0, block_size as int) =~= block@);
            }
        }
        out.push(cblock);
        c = c + 1;
    }
    Ok(out)
}

/// The ciphertext block that the recovery loop watches: with `k` suffix
/// bytes already recovered and a filler payload that pushes the next
/// unknown byte to the end of a block, block `k / bs` of the ciphertext is
/// the codebook image of the dictionary's probe block for that byte.
proof fn lemma_target_block(m: EcbOracle, k: int)
    requires
        m.wf(),
        m.prefix.len() == 0,
        0 <= k < m.suffix.len(),
    ensures
        ({
            let bs = m.block_size;
            let pay = bs - 1 - k % bs;
            let start = (k / bs) * bs;
            &&& m.cipher(fill(65u8, pay)).len() >= start + bs
            &&& m.cipher(fill(65u8, pay)).subrange(start, start + bs) == (m.codebook)(
                probe_block(m.suffix.take(k), bs, m.suffix[k]),
            )
        }),
{
    let bs = m.block_size;
    let s = m.suffix.len() as int;
    let q = k % bs;
    let kd = k / bs;
    lemma_fundamental_div_mod(k, bs);
    lemma_mod_division_less_than_divisor(k, bs);
    assert(kd * bs == bs * kd) by (nonlinear_arith);
    assert((kd + 1) * bs == kd * bs + bs) by (nonlinear_arith);
    let pay = bs - 1 - q;
    let start = kd * bs;
    assert(start + bs == pay + k + 1);
    let d = fill(65u8, pay);
    lemma_cipher_len(m, d);
    assert(m.cipher(d).len() >= pay + s + 1);
    assert(m.cipher(d).len() >= start + bs);
    lemma_cipher_block(m, d, kd);
    let bt = m.padded(d).subrange(start, start + bs);
    let known = m.suffix.take(k);
    let pb = probe_block(known, bs, m.suffix[k]);
    let base = fill(65u8, bs) + known;
    assert(base.len() == bs + k);
    assert(pb.len() == bs);
    assert forall|u: int| 0 <= u < bs implies bt[u] == pb[u] by {
        let t2 = start + u;
        assert(bt[u] == m.padded(d)[t2]);
        if u < bs - 1 {
            assert(pb[u] == base[k + 1 + u]);
            if t2 < pay {
                assert(m.padded(d)[t2] == 65u8);
                assert(k + 1 + u < bs);
                assert(base[k + 1 + u] == fill(65u8, bs)[k + 1 + u]);
            } else {
                assert(m.padded(d)[t2] == m.suffix[t2 - pay]);
                assert(k + 1 + u >= bs);
                assert(base[k + 1 + u] == known[k + 1 + u - bs]);
                assert(known[k + 1 + u - bs] == m.suffix[k + 1 + u - bs]);
                assert(t2 - pay == k + 1 + u - bs);
            }
        } else {
            assert(u == bs - 1);
            assert(t2 == pay + k);
            assert(m.padded(d)[t2] == m.suffix[k]);
            assert(pb[bs - 1] == m.suffix[k]);
        }
    }
    assert(bt =~= pb);
}

/// Recover the oracle's hidden suffix byte by byte: find the block size and
/// the suffix length, then repeatedly build the guessing dictionary, query
/// with an aligning filler payload, and match the watched ciphertext block
/// against the dictionary. Correct whenever the oracle is fixed-codebook
/// with no hidden prefix.
#[verifier::rlimit(50)]
pub fn recover_ecb_suffix<T: Oracle>(oracle: &T) -> (r: Result<Vec<u8>, AttackError>)
    ensures
        forall|m: EcbOracle| #[trigger]
            obeys_ecb(oracle, m) && m.prefix.len() == 0 ==> (r matches Ok(p) && p@ == m.suffix),
        (r matches Ok(p) ==> exists|s: int, b: int, a: int|
            #[trigger] probe_outcome(oracle, s, b, a) && recovered_by_matches(oracle, p@, a - b)),
        (r == Err::<Vec<u8>, AttackError>(AttackError::NoDictionaryMatch) ==> exists|
            rec: Seq<u8>,
            bs: int,
        |
            #[trigger] no_dict_match(oracle, rec, bs) && recovered_by_matches(oracle, rec, bs)
                && 1 <= bs <= 255),
{
    let block_size = detect_blocksize(oracle)?;
    if block_size == 0 || block_size > 255 {
        return Err(AttackError::IndeterminateBlockSize);
    }
    let target_len = detect_suffix_len(oracle)?;
    let mut plaintext: Vec<u8> = Vec::new();
    while plaintext.len() < target_len
        invariant
            1 <= block_size <= 255,
            plaintext@.len() <= target_len,
            exists|s: int, b: int, a: int|
                #[trigger] probe_outcome(oracle, s, b, a) && a - b == block_size,
            recovered_by_matches(oracle, plaintext@, block_size as int),
            forall|m: EcbOracle| #[trigger]
                obeys_ecb(oracle, m) && m.prefix.len() == 0 ==> {
                    &&& m.block_size == block_size
                    &&& m.suffix.len() == target_len
                    &&& m.suffix.len() + 1000 <= usize::MAX
                    &&& plaintext@ == m.suffix.take(plaintext@.len() as int)
                },
        decreases target_len - plaintext@.len(),
    {
        if plaintext.len() > usize::MAX - 300 {
            // The probed suffix length outruns what any real oracle could
            // hold: the oracle itself is misbehaving.
            return Err(AttackError::OracleQueryFailed);
        }
        let dict = match build_dict(&plaintext, oracle, block_size) {
            Ok(d) => d,
            Err(e) => {
                return Err(e);
            },
        };
        let k = plaintext.len();
        let pad_len = block_size - (k % block_size) - 1;
        let payload = make_filler(pad_len);
        let ct = match oracle.encrypt(payload.as_slice()) {
            Ok(x) => x,
            Err(e) => {
                proof {
                    assert forall|m: EcbOracle|
                        !(obeys_ecb(oracle, m) && m.prefix.len() == 0) by {
                        if obeys_ecb(oracle, m) && m.prefix.len() == 0 {
                            lemma_cipher_len(m, payload@);
                            assert(oracle.spec_encrypt(payload@) == Some(m.cipher(payload@)));
                        }
                    }
                }
                return Err(AttackError::OracleQueryFailed);
            },
        };
        proof {
            lemma_fundamental_div_mod(k as int, block_size as int);
            assert((k as int / block_size as int) * block_size == block_size as int * (k as int
                / block_size as int)) by (nonlinear_arith);
            lemma_mod_division_less_than_divisor(k as int, block_size as int);
        }
        let start = k / block_size * block_size;
        if ct.len() < start || ct.len() - start < block_size {
            proof {
                assert forall|m: EcbOracle| !(obeys_ecb(oracle, m) && m.prefix.len() == 0) by {
                    if obeys_ecb(oracle, m) && m.prefix.len() == 0 {
                        lemma_target_block(m, k as int);
                        assert(oracle.spec_encrypt(payload@) == Some(m.cipher(payload@)));
                    }
                }
            }
            return Err(AttackError::IndeterminateBlockSize);
        }
        let mut target: Vec<u8> = Vec::new();
        let mut u: usize = 0;
        while u < block_size
            invariant
                u <= block_size,
                start <= usize::MAX - 300,
                block_size <= 255,
                start + block_size <= ct@.len(),
                target@.len() == u,
                forall|v: int| 0 <= v < u ==> target@[v] == ct@[start + v],
            decreases block_size - u,
        {
            target.push(ct[start + u]);
            u = u + 1;
        }
        proof {
            assert(target@ =~= ct@.subrange(start as int, start + block_size));
        }
        let found = match find_char_in_dict(&dict, target.as_slice()) {
            Ok(c) => c,
            Err(e) => {
                proof {
                    let bs = block_size as int;
                    assert forall|cb: u8|
                        (#[trigger] oracle.spec_encrypt(probe_block(plaintext@, bs, cb)))
                            matches Some(dt) && (oracle.spec_encrypt(fill(65u8, bs - 1
                            - plaintext@.len() as int % bs)) matches Some(ctv) && (ctv.len()
                            >= (plaintext@.len() as int / bs) * bs + bs && ctv.subrange(
                            (plaintext@.len() as int / bs) * bs,
                            (plaintext@.len() as int / bs) * bs + bs,
                        ) != dt.take(bs))) by {
                        let cn = cb as int;
                        assert(oracle.spec_encrypt(probe_block(plaintext@, bs, cn as u8))
                            matches Some(dt) && dt.len() >= bs && (dict@[cn])@ == dt.take(bs));
                        assert(cn as u8 == cb);
                        assert(oracle.spec_encrypt(payload@) == Some(ct@));
                        assert((dict@[cn])@.take(bs) =~= (dict@[cn])@);
                        assert((dict@[cn])@.take(target@.len() as int) != target@);
                    }
                    assert(no_dict_match(oracle, plaintext@, bs));
                    assert(recovered_by_matches(oracle, plaintext@, bs));
                    assert forall|m: EcbOracle|
                        !(obeys_ecb(oracle, m) && m.prefix.len() == 0) by {
                        if obeys_ecb(oracle, m) && m.prefix.len() == 0 {
                            lemma_target_block(m, k as int);
                            assert(oracle.spec_encrypt(payload@) == Some(m.cipher(payload@)));
                            let c = m.suffix[k as int];
                            assert((dict@[c as int])@ == (m.codebook)(
                                probe_block(plaintext@, block_size as int, c),
                            ));
                            assert((dict@[c as int])@.take(block_size as int) =~= (
                            dict@[c as int])@);
                            assert((dict@[c as int])@.take(target@.len() as int) == target@);
                        }
                    }
                }
                return Err(e);
            },
        };
        proof {
            assert forall|m: EcbOracle| #[trigger]
                obeys_ecb(oracle, m) && m.prefix.len() == 0 implies found == m.suffix[k as int]
                by {
                lemma_target_block(m, k as int);
                assert(oracle.spec_encrypt(payload@) == Some(m.cipher(payload@)));
                let c = m.suffix[k as int];
                assert((dict@[c as int])@ == (m.codebook)(
                    probe_block(plaintext@, block_size as int, c),
                ));
                assert((dict@[c as int])@.take(block_size as int) =~= (dict@[c as int])@);
                assert((dict@[found as int])@.take(block_size as int) =~= (dict@[found as int])@);
                assert((dict@[found as int])@ == target@);
                assert((m.codebook)(probe_block(plaintext@, block_size as int, found)) == (
                m.codebook)(probe_block(plaintext@, block_size as int, c)));
                let p1 = probe_block(plaintext@, block_size as int, found);
                let p2 = probe_block(plaintext@, block_size as int, c);
                assert(p1.len() == block_size && p2.len() == block_size);
                assert(p1 == p2);
                assert(p1.last() == found && p2.last() == c);
            }
        }
        let ghost pre = plaintext@;
        plaintext.push(found);
        proof {
            assert forall|kk: int| 0 <= kk < plaintext@.len() implies #[trigger]
                recovered_byte_checked(oracle, plaintext@, block_size as int, kk) by {
                if kk < pre.len() {
                    assert(plaintext@.take(kk) =~= pre.take(kk));
                    assert(plaintext@[kk] == pre[kk]);
                    assert(recovered_byte_checked(oracle, pre, block_size as int, kk));
                } else {
                    let bs = block_size as int;
                    let cnum = found as int;
                    assert(plaintext@.take(kk) =~= pre);
                    assert(plaintext@[kk] == found);
                    assert(oracle.spec_encrypt(probe_block(pre, bs, cnum as u8)) matches Some(dt)
                        && dt.len() >= bs && (dict@[cnum])@ == dt.take(bs));
                    assert(cnum as u8 == found);
                    assert((dict@[found as int])@.take(bs) =~= (dict@[found as int])@);
                    assert((dict@[found as int])@ == target@);
                    assert(oracle.spec_encrypt(payload@) == Some(ct@));
                    assert(target@ == ct@.subrange(start as int, start + block_size));
                }
            }
            assert forall|m: EcbOracle| #[trigger]
                obeys_ecb(oracle, m) && m.prefix.len() == 0 implies plaintext@
                == m.suffix.take(plaintext@.len() as int) by {
                assert(pre == m.suffix.take(pre.len() as int));
                assert(pre.push(m.suffix[pre.len() as int]) =~= m.suffix.take(
                    pre.len() as int + 1,
                ));
            }
        }
    }
    proof {
        assert forall|m: EcbOracle| #[trigger]
            obeys_ecb(oracle, m) && m.prefix.len() == 0 implies plaintext@ == m.suffix by {
            assert(m.suffix.take(m.suffix.len() as int) =~= m.suffix);
        }
    }
    Ok(plaintext)
}

/// A filler payload of capital letters, as the dictionary construction uses.
fn make_filler(n: usize) -> (r: Vec<u8>)
    ensures
        r@ == fill(65u8, n as int),
{
    let mut out: Vec<u8> = Vec::new();
    let mut i: usize = 0;
    while i < n
        invariant
            i <= n,
            out@.len() == i,
            forall|j: int| 0 <= j < i ==> out@[j] == 65u8,
        decreases n - i,
    {
        out.push(65u8);
        i = i + 1;
    }
    assert(out@ =~= fill(65u8, n as int));
    out
}

} // verus!
