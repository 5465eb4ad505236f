use vstd::prelude::*;

use crate::errors::AttackError;
use crate::oracle::{
    lemma_cipher_block, lemma_cipher_len, obeys_ecb, padded_len, EcbOracle, Oracle,
};

verus! {

/// The codebook of `XorCodebookOracle`: each block position XORed with the
/// matching key byte. Injective and length-preserving, so it behaves as a
/// (toy) fixed-codebook block cipher.
pub open spec fn xor_codebook(key: Seq<u8>) -> spec_fn(Seq<u8>) -> Seq<u8> {
    |b: Seq<u8>| Seq::new(b.len(), |i: int| b[i] ^ key[i])
}

/// A deterministic fixed-codebook oracle over a position-wise XOR codebook:
/// the block size is the key length, and a hidden prefix and suffix wrap
/// every query. It stands in for a real block cipher when the attack
/// routines are exercised.
pub struct XorCodebookOracle {
    pub key: Vec<u8>,
    pub prefix: Vec<u8>,
    pub suffix: Vec<u8>,
}

impl XorCodebookOracle {
    /// A usable hidden state: a key of block-size length, and hidden bytes
    /// short enough that probe ciphertexts exist in memory.
    pub open spec fn wf_state(&self) -> bool {
        &&& 1 <= self.key@.len() <= 255
        &&& self.prefix@.len() + self.suffix@.len() + 1000 <= usize::MAX
    }

    /// The fixed-codebook description this oracle realizes.
    pub open spec fn model(&self) -> EcbOracle {
        EcbOracle {
            prefix: self.prefix@,
            suffix: self.suffix@,
            block_size: self.key@.len() as int,
            codebook: xor_codebook(self.key@),
        }
    }
}

/// The description a well-formed `XorCodebookOracle` realizes is itself
/// well formed: the XOR codebook maps blocks to blocks injectively.
proof fn lemma_xor_model_wf(o: &XorCodebookOracle)
    requires
        o.wf_state(),
    ensures
        o.model().wf(),
{
    let m = o.model();
    let key = o.key@;
    let bs = m.block_size;
    assert forall|b: Seq<u8>| b.len() == bs implies (#[trigger] (m.codebook)(b)).len() == bs by {
        assert((m.codebook)(b) == Seq::new(b.len(), |i: int| b[i] ^ key[i]));
    }
    assert forall|b1: Seq<u8>, b2: Seq<u8>|
        b1.len() == bs && b2.len() == bs && #[trigger] (m.codebook)(b1) == #[trigger] (m.codebook)(
            b2,
        ) implies b1 == b2 by {
        assert forall|i: int| 0 <= i < bs implies b1[i] == b2[i] by {
            assert((m.codebook)(b1)[i] == b1[i] ^ key[i]);
            assert((m.codebook)(b2)[i] == b2[i] ^ key[i]);
            let x = b1[i];
            let y = b2[i];
            let kk = key[i];
            assert(x ^ kk == y ^ kk ==> x == y) by (bit_vector);
        }
        assert(b1 =~= b2);
    }
}

/// A well-formed `XorCodebookOracle` realizes a well-formed description and
/// obeys it on every query that fits: the hypothesis under which every
/// detection and recovery contract of this crate speaks.
pub proof fn lemma_xor_oracle_obeys(o: &XorCodebookOracle)
    requires
        o.wf_state(),
    ensures
        o.model().wf(),
        obeys_ecb(o, o.model()),
{
    let m = o.model();
    lemma_xor_model_wf(o);
    assert forall|d: Seq<u8>| m.fits(d.len() as int) implies #[trigger] o.spec_encrypt(d) == Some(
        m.cipher(d),
    ) by {}
}

impl Oracle for XorCodebookOracle {
    open spec fn spec_encrypt(&self, data: Seq<u8>) -> Option<Seq<u8>> {
        if self.wf_state() && self.model().fits(data.len() as int) {
            Some(self.model().cipher(data))
        } else {
            None
        }
    }

    fn encrypt(&self, data: &[u8]) -> (r: Result<Vec<u8>, AttackError>) {
        let bs = self.key.len();
        if bs < 1 || bs > 255 {
            return Err(AttackError::OracleQueryFailed);
        }
        if self.prefix.len() > usize::MAX - 1000 || self.suffix.len() > usize::MAX - 1000
            - self.prefix.len() {
            return Err(AttackError::OracleQueryFailed);
        }
        let hidden = self.prefix.len() + self.suffix.len();
        if data.len() > usize::MAX - hidden - bs {
            return Err(AttackError::OracleQueryFailed);
        }
        proof {
            lemma_xor_model_wf(self);
        }
        let p_len = self.prefix.len();
        let d_len = data.len();
        let s_len = self.suffix.len();
        let mut msg: Vec<u8> = Vec::new();
        let mut i: usize = 0;
        while i < p_len
            invariant
                i <= p_len,
                p_len == self.prefix@.len(),
                msg@.len() == i,
                forall|t: int| 0 <= t < i ==> msg@[t] == self.prefix@[t],
            decreases p_len - i,
        {
            msg.push(self.prefix[i]);
            i = i + 1;
        }
        let mut j: usize = 0;
        while j < d_len
            invariant
                j <= d_len,
                p_len == self.prefix@.len(),
                d_len == data@.len(),
                msg@.len() == p_len + j,
                forall|t: int| 0 <= t < p_len ==> msg@[t] == self.prefix@[t],
                forall|t: int| p_len <= t < p_len + j ==> msg@[t] == data@[t - p_len],
            decreases d_len - j,
        {
            msg.push(data[j]);
            j = j + 1;
        }
        let mut w: usize = 0;
        while w < s_len
            invariant
                w <= s_len,
                p_len == self.prefix@.len(),
                d_len == data@.len(),
                s_len == self.suffix@.len(),
                msg@.len() == p_len + d_len + w,
                forall|t: int| 0 <= t < p_len ==> msg@[t] == self.prefix@[t],
                forall|t: int| p_len <= t < p_len + d_len ==> msg@[t] == data@[t - p_len],
                forall|t: int|
                    p_len + d_len <= t < p_len + d_len + w ==> msg@[t] == self.suffix@[t - p_len
                        - d_len],
            decreases s_len - w,
        {
            msg.push(self.suffix[w]);
            w = w + 1;
        }
        let m_len = msg.len();
        let pad = bs - (m_len % bs);
        let pad_byte = pad as u8;
        let mut z: usize = 0;
        while z < pad
            invariant
                z <= pad,
                pad == bs - (m_len as int % bs as int),
                1 <= bs <= 255,
                p_len == self.prefix@.len(),
                d_len == data@.len(),
                s_len == self.suffix@.len(),
                m_len == p_len + d_len + s_len,
                pad_byte == pad as u8,
                msg@.len() == m_len + z,
                forall|t: int| 0 <= t < p_len ==> msg@[t] == self.prefix@[t],
                forall|t: int| p_len <= t < p_len + d_len ==> msg@[t] == data@[t - p_len],
                forall|t: int|
                    p_len + d_len <= t < m_len ==> msg@[t] == self.suffix@[t - p_len - d_len],
                forall|t: int| m_len <= t < m_len + z ==> msg@[t] == pad_byte,
            decreases pad - z,
        {
            msg.push(pad_byte);
            z = z + 1;
        }
        proof {
            let model = self.model();
            let d = data@;
            assert(msg@.len() == padded_len(model.hidden_len() + d.len(), model.block_size));
            assert forall|t: int| 0 <= t < msg@.len() implies msg@[t] == model.padded(d)[t] by {}
            assert(msg@ =~= model.padded(d));
        }
        let total = msg.len();
        let mut out: Vec<u8> = Vec::new();
        let mut x: usize = 0;
        while x < total
            invariant
                x <= total,
                1 <= bs <= 255,
                bs == self.key@.len(),
                total == msg@.len(),
                out@.len() == x,
                forall|t: int|
                    0 <= t < x ==> out@[t] == (msg@[t] ^ self.key@[t % bs as int]),
            decreases total - x,
        {
            out.push(msg[x] ^ self.key[x % bs]);
            x = x + 1;
        }
        proof {
            let model = self.model();
            let d = data@;
            let ciph = model.cipher(d);
            lemma_cipher_len(model, d);
            assert forall|t: int| 0 <= t < total implies ciph[t] == (msg@[t] ^ self.key@[t
                % bs as int]) by {
                let bsi = bs as int;
                let blk = t / bsi;
                let r = t % bsi;
                vstd::arithmetic::div_mod::lemma_fundamental_div_mod(t, bsi);
                vstd::arithmetic::div_mod::lemma_mod_division_less_than_divisor(t, bsi);
                assert(blk * bsi == bsi * blk) by (nonlinear_arith);
                assert((blk + 1) * bsi == blk * bsi + bsi) by (nonlinear_arith);
                crate::oracle::lemma_padded_len_props(model.hidden_len() + d.len(), bsi);
                let q = (model.hidden_len() + d.len()) / bsi + 1;
                assert(ciph.len() == bsi * q);
                assert(bsi * q > bsi * blk);
                assert(q > blk) by (nonlinear_arith)
                    requires
                        bsi > 0,
                        bsi * q > bsi * blk,
                ;
                assert((blk + 1) * bsi <= bsi * q) by (nonlinear_arith)
                    requires
                        blk + 1 <= q,
                        bsi > 0,
                ;
                lemma_cipher_block(model, d, blk);
                assert(ciph.subrange(blk * bsi, blk * bsi + bsi)[r] == ciph[t]);
                assert((model.codebook)(model.padded(d).subrange(blk * bsi, blk * bsi + bsi))[r]
                    == model.padded(d).subrange(blk * bsi, blk * bsi + bsi)[r] ^ self.key@[r]);
                assert(model.padded(d).subrange(blk * bsi, blk * bsi + bsi)[r] == msg@[t]);
            }
            assert(out@ =~= model.cipher(d));
        }
        Ok(out)
    }
}

} // verus!
