use vstd::arithmetic::div_mod::{
    lemma_fundamental_div_mod, lemma_fundamental_div_mod_converse,
    lemma_mod_division_less_than_divisor, lemma_mod_multiples_basic,
};
use vstd::prelude::*;

use crate::errors::AttackError;

verus! {

/// Block-cipher mode as reported by `detect_encryption_mode`: fixed-codebook
/// (electronic codebook) or chained (cipher block chaining).
#[derive(Clone, Copy, Debug, PartialEq, Eq, Structural)]
pub enum Mode {
    Ecb,
    Cbc,
}

/// Margin kept between the hidden prefix-plus-suffix length and the address
/// space, so that every probe the attack routines send (none is longer than
/// a few hundred bytes) yields a ciphertext whose length fits in a `usize`.
pub const HIDDEN_LEN_MARGIN: usize = 1000;

/// Length of an `n`-byte message once the padder has appended between 1 and
/// `bs` bytes to reach the next multiple of the block size.
pub open spec fn padded_len(n: int, bs: int) -> int {
    n + bs - n % bs
}

/// Basic shape of `padded_len`: strictly longer than the message, longer by
/// at most one block, and always a multiple of the block size.
pub proof fn lemma_padded_len_props(n: int, bs: int)
    requires
        bs > 0,
        n >= 0,
    ensures
        n < padded_len(n, bs) <= n + bs,
        padded_len(n, bs) % bs == 0,
        padded_len(n, bs) == bs * (n / bs + 1),
{
    lemma_fundamental_div_mod(n, bs);
    lemma_mod_division_less_than_divisor(n, bs);
    lemma_mod_multiples_basic(n / bs + 1, bs);
    assert(bs * (n / bs + 1) == bs * (n / bs) + bs) by (nonlinear_arith);
    assert((n / bs + 1) * bs == bs * (n / bs + 1)) by (nonlinear_arith);
}

/// Inside one block window the padded length does not move: for the first
/// `bs - n % bs - 1` extra bytes the padded length stays put, and the next
/// byte after that window pushes it up by exactly one block.
pub proof fn lemma_padded_len_window(n: int, bs: int, t: int)
    requires
        bs > 0,
        n >= 0,
        0 <= t < bs - n % bs,
    ensures
        (n + t) % bs == n % bs + t,
        padded_len(n + t, bs) == padded_len(n, bs),
{
    lemma_fundamental_div_mod(n, bs);
    lemma_mod_division_less_than_divisor(n, bs);
    assert((n / bs) * bs == bs * (n / bs)) by (nonlinear_arith);
    lemma_fundamental_div_mod_converse(n + t, bs, n / bs, n % bs + t);
}

/// One byte past the window the padded length grows by exactly one block.
pub proof fn lemma_padded_len_jump(n: int, bs: int)
    requires
        bs > 0,
        n >= 0,
    ensures
        (n + (bs - n % bs)) % bs == 0,
        padded_len(n + (bs - n % bs), bs) == padded_len(n, bs) + bs,
{
    lemma_fundamental_div_mod(n, bs);
    lemma_mod_division_less_than_divisor(n, bs);
    assert(bs * (n / bs + 1) == bs * (n / bs) + bs) by (nonlinear_arith);
    assert((n / bs + 1) * bs == bs * (n / bs + 1)) by (nonlinear_arith);
    lemma_fundamental_div_mod_converse(n + (bs - n % bs), bs, n / bs + 1, 0);
}

/// Ghost description of a fixed-codebook oracle: a hidden prefix and suffix
/// wrapped around the attacker's input, a block size, and the codebook
/// itself, one length-preserving injective function from plaintext block to
/// ciphertext block.
pub ghost struct EcbOracle {
    pub prefix: Seq<u8>,
    pub suffix: Seq<u8>,
    pub block_size: int,
    pub codebook: spec_fn(Seq<u8>) -> Seq<u8>,
}

impl EcbOracle {
    /// Total hidden length: prefix plus suffix.
    pub open spec fn hidden_len(self) -> int {
        self.prefix.len() as int + self.suffix.len() as int
    }

    /// A well-formed description: a usable block size, a codebook that maps
    /// blocks to blocks injectively, and hidden bytes that leave room for
    /// the probes' ciphertexts to exist in memory.
    pub open spec fn wf(self) -> bool {
        &&& 0 < self.block_size <= 255
        &&& self.hidden_len() + HIDDEN_LEN_MARGIN <= usize::MAX
        &&& forall|b: Seq<u8>|
            b.len() == self.block_size ==> (#[trigger] (self.codebook)(b)).len()
                == self.block_size
        &&& forall|b1: Seq<u8>, b2: Seq<u8>|
            b1.len() == self.block_size && b2.len() == self.block_size && #[trigger] (self.codebook)(
                b1,
            ) == #[trigger] (self.codebook)(b2) ==> b1 == b2
    }

    /// The padded plaintext the oracle encrypts for attacker input `d`:
    /// prefix, then `d`, then suffix, then block padding whose bytes hold
    /// the pad length.
    pub open spec fn padded(self, d: Seq<u8>) -> Seq<u8> {
        let p = self.prefix.len() as int;
        let c = self.hidden_len() + d.len();
        let total = padded_len(c, self.block_size);
        Seq::new(
            total as nat,
            |t: int|
                if t < p {
                    self.prefix[t]
                } else if t < p + d.len() {
                    d[t - p]
                } else if t < c {
                    self.suffix[t - p - d.len()]
                } else {
                    (total - c) as u8
                },
        )
    }

    /// The ciphertext for attacker input `d`.
    pub open spec fn cipher(self, d: Seq<u8>) -> Seq<u8> {
        ecb_encrypt(self.codebook, self.block_size, self.padded(d))
    }

    /// Whether a query of `n` attacker bytes is small enough that the model
    /// ciphertext exists as a real vector.
    pub open spec fn fits(self, n: int) -> bool {
        self.hidden_len() + n + self.block_size <= usize::MAX
    }
}

/// Fixed-codebook encryption of a whole block-aligned message: each aligned
/// block through the codebook, in order.
pub open spec fn ecb_encrypt(cb: spec_fn(Seq<u8>) -> Seq<u8>, bs: int, m: Seq<u8>) -> Seq<u8>
    decreases m.len(),
{
    if bs <= 0 || m.len() < bs {
        Seq::empty()
    } else {
        cb(m.subrange(0, bs)) + ecb_encrypt(cb, bs, m.subrange(bs, m.len() as int))
    }
}

/// The length of a fixed-codebook encryption of an aligned message equals
/// the message length.
pub proof fn lemma_ecb_encrypt_len(cb: spec_fn(Seq<u8>) -> Seq<u8>, bs: int, m: Seq<u8>)
    requires
        bs > 0,
        m.len() as int % bs == 0,
        forall|b: Seq<u8>| b.len() == bs ==> (#[trigger] cb(b)).len() == bs,
    ensures
        ecb_encrypt(cb, bs, m).len() == m.len(),
    decreases m.len(),
{
    if m.len() < bs {
        if m.len() != 0 {
            lemma_mod_division_less_than_divisor(m.len() as int, bs);
            vstd::arithmetic::div_mod::lemma_small_mod(m.len(), bs as nat);
            assert(false);
        }
    } else {
        let rest = m.subrange(bs, m.len() as int);
        assert(rest.len() == m.len() - bs);
        vstd::arithmetic::div_mod::lemma_mod_sub_multiples_vanish(m.len() as int, bs);
        lemma_ecb_encrypt_len(cb, bs, rest);
    }
}

/// Block `i` of a fixed-codebook encryption is the codebook applied to
/// block `i` of the message.
pub proof fn lemma_ecb_encrypt_block(cb: spec_fn(Seq<u8>) -> Seq<u8>, bs: int, m: Seq<u8>, i: int)
    requires
        bs > 0,
        m.len() as int % bs == 0,
        forall|b: Seq<u8>| b.len() == bs ==> (#[trigger] cb(b)).len() == bs,
        0 <= i,
        (i + 1) * bs <= m.len(),
    ensures
        ecb_encrypt(cb, bs, m).subrange(i * bs, i * bs + bs) == cb(
            m.subrange(i * bs, i * bs + bs),
        ),
    decreases i,
{
    assert((i + 1) * bs == i * bs + bs) by (nonlinear_arith);
    assert(i * bs >= 0) by (nonlinear_arith)
        requires
            i >= 0,
            bs > 0,
    ;
    let head = cb(m.subrange(0, bs));
    let rest = m.subrange(bs, m.len() as int);
    vstd::arithmetic::div_mod::lemma_mod_sub_multiples_vanish(m.len() as int, bs);
    lemma_ecb_encrypt_len(cb, bs, rest);
    assert(head.len() == bs);
    if i == 0 {
        assert(ecb_encrypt(cb, bs, m).subrange(0, bs) =~= head);
        assert(m.subrange(0 * bs, 0 * bs + bs) =~= m.subrange(0, bs));
    } else {
        lemma_ecb_encrypt_block(cb, bs, rest, i - 1);
        assert((i - 1) * bs == i * bs - bs) by (nonlinear_arith);
        assert(ecb_encrypt(cb, bs, m).subrange(i * bs, i * bs + bs) =~= ecb_encrypt(
            cb,
            bs,
            rest,
        ).subrange((i - 1) * bs, (i - 1) * bs + bs));
        assert(rest.subrange((i - 1) * bs, (i - 1) * bs + bs) =~= m.subrange(i * bs, i * bs + bs));
        assert(ecb_encrypt(cb, bs, m).subrange(i * bs, i * bs + bs) == cb(
            m.subrange(i * bs, i * bs + bs),
        ));
    }
}

/// Length and alignment of a model ciphertext.
pub proof fn lemma_cipher_len(m: EcbOracle, d: Seq<u8>)
    requires
        m.wf(),
    ensures
        m.cipher(d).len() == padded_len(m.hidden_len() + d.len(), m.block_size),
        m.cipher(d).len() as int % m.block_size == 0,
        m.hidden_len() + d.len() < m.cipher(d).len() <= m.hidden_len() + d.len() + m.block_size,
{
    lemma_padded_len_props(m.hidden_len() + d.len(), m.block_size);
    lemma_ecb_encrypt_len(m.codebook, m.block_size, m.padded(d));
}

/// Block `i` of a model ciphertext is the codebook applied to block `i` of
/// the padded plaintext.
pub proof fn lemma_cipher_block(m: EcbOracle, d: Seq<u8>, i: int)
    requires
        m.wf(),
        0 <= i,
        (i + 1) * m.block_size <= m.cipher(d).len(),
    ensures
        m.cipher(d).subrange(i * m.block_size, i * m.block_size + m.block_size) == (m.codebook)(
            m.padded(d).subrange(i * m.block_size, i * m.block_size + m.block_size),
        ),
{
    lemma_cipher_len(m, d);
    lemma_ecb_encrypt_block(m.codebook, m.block_size, m.padded(d), i);
}

/// A sequence of `n` copies of the byte `v`.
pub open spec fn fill(v: u8, n: int) -> Seq<u8> {
    Seq::new(n as nat, |t: int| v)
}

/// A black-box encryption capability: hidden state fixed at construction,
/// `encrypt` a pure function of its argument.
pub trait Oracle {
    /// The input/output relation of this oracle: what `encrypt` returns on
    /// each input, or `None` where it fails.
    spec fn spec_encrypt(&self, data: Seq<u8>) -> Option<Seq<u8>>;

    /// Encrypt attacker-chosen plaintext under the hidden state.
    fn encrypt(&self, data: &[u8]) -> (r: Result<Vec<u8>, AttackError>)
        ensures
            (match r {
                Ok(c) => self.spec_encrypt(data@) == Some(c@),
                Err(_) => self.spec_encrypt(data@) is None,
            }),
    ;
}

/// The oracle behaves exactly as the fixed-codebook description `m`: every
/// query whose ciphertext can exist in memory succeeds and returns the
/// modelled ciphertext.
pub open spec fn obeys_ecb<T: Oracle>(o: &T, m: EcbOracle) -> bool {
    &&& m.wf()
    &&& forall|d: Seq<u8>|
        m.fits(d.len() as int) ==> #[trigger] o.spec_encrypt(d) == Some(m.cipher(d))
}

/// The oracle's ciphertext lengths follow the padded-length profile with
/// hidden length `h` and block size `bs`: every probe-sized query succeeds,
/// and its ciphertext has the padded length of the message. This says
/// nothing about the mode: a chained-mode oracle with the same padder
/// satisfies it just as a fixed-codebook one does, so the length-based
/// detectors can promise their results before the mode is known.
pub open spec fn obeys_padded_lengths<T: Oracle>(o: &T, h: int, bs: int) -> bool {
    &&& 0 <= h
    &&& 0 < bs <= 255
    &&& h + 600 + bs <= usize::MAX
    &&& forall|d: Seq<u8>|
        d.len() <= 600 ==> ((#[trigger] o.spec_encrypt(d)) matches Some(c) && c.len()
            == padded_len(h + d.len(), bs))
}

/// A fixed-codebook oracle's ciphertext lengths follow the padded-length
/// profile of its description.
pub proof fn lemma_obeys_padded_lengths<T: Oracle>(o: &T, m: EcbOracle)
    requires
        obeys_ecb(o, m),
    ensures
        obeys_padded_lengths(o, m.hidden_len(), m.block_size),
{
    assert forall|d: Seq<u8>| d.len() <= 600 implies ((#[trigger] o.spec_encrypt(d)) matches Some(
        c,
    ) && c.len() == padded_len(m.hidden_len() + d.len(), m.block_size)) by {
        assert(m.fits(d.len() as int));
        assert(o.spec_encrypt(d) == Some(m.cipher(d)));
        lemma_cipher_len(m, d);
    }
}

} // verus!
