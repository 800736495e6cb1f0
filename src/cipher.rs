//! The `Cipher`: a key's PRF and PRP together with the CSPRNG that draws nonces.

use vstd::prelude::*;

use crate::ciphertext::{CipherText, LeftCipherText, RightCipherText};
use crate::cmp::is_arity;
use crate::error::Error;
use crate::kbkdf::{kdf_output, KBKDFInit, CMACAES256};
use crate::plaintext::PlainText;
use crate::prf::{
    prf_of, prf_subkey_id, PseudoRandomFunction, PseudoRandomFunctionInit, AES128PRF,
};
use crate::prp::{
    inverse_perms, shuffle_of, PseudoRandomPermutation, PseudoRandomPermutationInit,
    RandShufflePRP,
};
use crate::rng::{draw_nonce, entropy_rng, seeded_rng};

verus! {

/// `n` blocks (between 1 and 65536) of width `w` (at least 2), and a comparator arity `m`.
pub open spec fn valid_params(n: nat, w: nat, m: u8) -> bool {
    &&& 1 <= n <= 65536
    &&& 2 <= w <= 65535
    &&& is_arity(m)
}

/// `x` has `n` blocks, each less than `w`.
pub open spec fn valid_blocks(x: Seq<u16>, n: nat, w: nat) -> bool {
    &&& x.len() == n
    &&& forall|k: int| 0 <= k < n ==> (#[trigger] x[k] as nat) < w
}

/// Turns plaintexts into comparable ciphertexts.
///
/// All ciphertexts produced by one cipher can be compared with each other.
pub struct Cipher {
    /// The number of blocks.
    n: usize,
    /// The width of each block.
    w: u16,
    /// The comparator's arity.
    m: u8,
    /// The pseudo-random function.
    prf: AES128PRF,
    /// The pseudo-random permutation.
    prp: RandShufflePRP,
    /// The generator that draws each encryption's nonce base.
    rng: rand_chacha::ChaCha20Rng,
}

impl Cipher {
    /// The number of blocks `N`.
    pub closed spec fn blocks(&self) -> nat {
        self.n as nat
    }

    /// The block width `W`.
    pub closed spec fn width(&self) -> nat {
        self.w as nat
    }

    /// The comparator arity `M`.
    pub closed spec fn arity(&self) -> u8 {
        self.m
    }

    /// The PRF's key.
    pub closed spec fn prf_key(&self) -> Seq<u8> {
        self.prf.key()
    }

    /// The permutation of `[0, W)`.
    pub closed spec fn perm(&self) -> Seq<u16> {
        self.prp.perm()
    }

    /// The inverse of the permutation.
    pub closed spec fn inv(&self) -> Seq<u16> {
        self.prp.inv()
    }

    /// The parameters are valid and the permutation is one of `[0, W)`, with its inverse.
    pub open spec fn wf(&self) -> bool {
        &&& valid_params(self.blocks(), self.width(), self.arity())
        &&& inverse_perms(self.perm(), self.inv(), self.width())
        &&& self.tables_match()
    }

    /// The permutation's tables are the ones the cipher consults.
    pub closed spec fn tables_match(&self) -> bool {
        self.prp.width() == self.w
    }

    /// The PRF and the PRP keyed by subkeys derived from `key`.
    fn key_schedule(w: u16, key: &[u8; 32]) -> (r: Result<(AES128PRF, RandShufflePRP), Error>)
        ensures
            r is Ok,
            (r->Ok_0).0.key() == kdf_output(key@, prf_subkey_id(), 16),
            (r->Ok_0).1.wf(),
            (r->Ok_0).1.width() == w,
            (r->Ok_0).1.perm() == shuffle_of(key@, w),
    {
        let kdf = match CMACAES256::new(key) {
            Ok(k) => k,
            Err(e) => {
                return Err(e);
            },
        };
        let prf = match AES128PRF::new(&kdf) {
            Ok(p) => p,
            Err(e) => {
                return Err(e);
            },
        };
        let prp = match RandShufflePRP::new(w, &kdf) {
            Ok(p) => p,
            Err(e) => {
                return Err(e);
            },
        };
        Ok((prf, prp))
    }

    /// Create a cipher for `n` blocks of width `w` under the comparator of arity `m`
    /// ([`EQUALITY`](crate::cmp::EQUALITY) or [`ORDERING`](crate::cmp::ORDERING)).
    ///
    /// The PRF and the PRP are keyed by subkeys derived from the 32-byte `key`; the generator
    /// for nonces is seeded from system entropy. Fails with a range error when the parameters are
    /// invalid, and with a crypto error when no entropy could be had.
    pub fn new(n: usize, w: u16, m: u8, key: &[u8; 32]) -> (r: Result<Cipher, Error>)
        ensures
            !valid_params(n as nat, w as nat, m) <==> r is Err && r->Err_0 is RangeError,
            r is Err ==> r->Err_0 is RangeError || r->Err_0 is CryptoError,
            r is Ok ==> {
                &&& r->Ok_0.wf()
                &&& r->Ok_0.blocks() == n
                &&& r->Ok_0.width() == w
                &&& r->Ok_0.arity() == m
                &&& r->Ok_0.derived_from(key@)
            },
    {
        if !(1 <= n && n <= 65536 && 2 <= w && (m == 2 || m == 3)) {
            return Err(Error::RangeError("invalid block count, block width or arity".to_string()));
        }
        let (prf, prp) = match Cipher::key_schedule(w, key) {
            Ok(parts) => parts,
            Err(e) => {
                return Err(e);
            },
        };
        let rng = match entropy_rng() {
            Some(g) => g,
            None => {
                return Err(Error::CryptoError("could not seed the random-number generator".to_string()));
            },
        };
        Ok(Cipher { n, w, m, prf, prp, rng })
    }

    /// Create a cipher as [`Cipher::new`] does, but with the nonce generator seeded from
    /// `nonce_seed` rather than from system entropy, so that a run can be reproduced.
    ///
    /// Only the nonce bases are fixed by the seed; everything else still depends on the key and
    /// the plaintext alone. Fails with a range error exactly when the parameters are invalid.
    pub fn new_with_nonce_seed(n: usize, w: u16, m: u8, key: &[u8; 32], nonce_seed: &[u8; 32]) -> (r:
        Result<Cipher, Error>)
        ensures
            !valid_params(n as nat, w as nat, m) <==> r is Err,
            r is Err ==> r->Err_0 is RangeError,
            r is Ok ==> {
                &&& r->Ok_0.wf()
                &&& r->Ok_0.blocks() == n
                &&& r->Ok_0.width() == w
                &&& r->Ok_0.arity() == m
                &&& r->Ok_0.derived_from(key@)
            },
    {
        if !(1 <= n && n <= 65536 && 2 <= w && (m == 2 || m == 3)) {
            return Err(Error::RangeError("invalid block count, block width or arity".to_string()));
        }
        let (prf, prp) = match Cipher::key_schedule(w, key) {
            Ok(parts) => parts,
            Err(e) => {
                return Err(e);
            },
        };
        let rng = seeded_rng(nonce_seed.as_slice());
        Ok(Cipher { n, w, m, prf, prp, rng })
    }

    /// The number of blocks.
    pub fn block_count(&self) -> (r: usize)
        ensures
            r == self.blocks(),
    {
        self.n
    }

    /// The width of each block.
    pub fn block_width(&self) -> (r: u16)
        ensures
            r == self.width(),
    {
        self.w
    }

    /// The comparator's arity.
    pub fn comparator_arity(&self) -> (r: u8)
        ensures
            r == self.arity(),
    {
        self.m
    }

    /// Encrypt a value into a ciphertext that has both a left and a right part.
    ///
    /// Fails with a range error exactly when the plaintext does not have `N` blocks each less
    /// than `W`.
    pub fn full_encrypt(&mut self, value: &PlainText) -> (r: Result<CipherText, Error>)
        requires
            old(self).wf(),
        ensures
            final(self).wf(),
            final(self).same_key(*old(self)),
            valid_blocks(value@, old(self).blocks(), old(self).width()) <==> r is Ok,
            r is Err ==> r->Err_0 is RangeError,
            r is Ok ==> r->Ok_0.encrypts(*old(self), value@, true),
    {
        CipherText::new(self, value)
    }

    /// Encrypt a value into a ciphertext that has only a right part.
    ///
    /// Fails with a range error exactly when the plaintext does not have `N` blocks each less
    /// than `W`.
    pub fn right_encrypt(&mut self, value: &PlainText) -> (r: Result<CipherText, Error>)
        requires
            old(self).wf(),
        ensures
            final(self).wf(),
            final(self).same_key(*old(self)),
            valid_blocks(value@, old(self).blocks(), old(self).width()) <==> r is Ok,
            r is Err ==> r->Err_0 is RangeError,
            r is Ok ==> r->Ok_0.encrypts(*old(self), value@, false),
    {
        CipherText::new_right(self, value)
    }

    /// The PRF key and the permutation are the ones derived from the root key `key`.
    pub open spec fn derived_from(&self, key: Seq<u8>) -> bool {
        &&& self.prf_key() == kdf_output(key, prf_subkey_id(), 16)
        &&& self.perm() == shuffle_of(key, self.width() as u16)
    }

    /// Both ciphers have the same parameters, PRF and PRP.
    pub open spec fn same_key(&self, other: Cipher) -> bool {
        &&& self.blocks() == other.blocks()
        &&& self.width() == other.width()
        &&& self.arity() == other.arity()
        &&& self.prf_key() == other.prf_key()
        &&& self.perm() == other.perm()
        &&& self.inv() == other.inv()
    }

    /// Draw a fresh nonce base from the generator.
    pub(crate) fn fill_nonce(&mut self) -> (r: [u8; 16])
        ensures
            final(self).same_key(*old(self)),
            final(self).wf() == old(self).wf(),
    {
        draw_nonce(&mut self.rng)
    }

    /// The pseudo-random block for `value`.
    pub(crate) fn pseudorandomise(&self, value: u16) -> (r: [u8; 16])
        ensures
            r@ == prf_of(self.prf_key(), value),
    {
        self.prf.randomise(value)
    }

    /// The permuted value of `value`; fails with a range error when `value` is not less than `W`.
    pub(crate) fn permuted_value(&self, value: u16) -> (r: Result<u16, Error>)
        requires
            self.wf(),
        ensures
            (value as nat) < self.width() <==> r is Ok,
            r is Ok ==> r->Ok_0 == self.perm()[value as int] && (r->Ok_0 as nat) < self.width(),
            r is Err ==> r->Err_0 is RangeError,
    {
        if value >= self.w {
            return Err(Error::RangeError("value not less than the block width".to_string()));
        }
        self.prp.value(value)
    }

    /// The value whose permuted value is `permutation`; fails with a range error when
    /// `permutation` is not less than `W`.
    pub(crate) fn inverse_permuted_value(&self, permutation: u16) -> (r: Result<u16, Error>)
        requires
            self.wf(),
        ensures
            (permutation as nat) < self.width() <==> r is Ok,
            r is Ok ==> r->Ok_0 == self.inv()[permutation as int] && (r->Ok_0 as nat)
                < self.width(),
            r is Err ==> r->Err_0 is RangeError,
    {
        if permutation >= self.w {
            return Err(Error::RangeError("permutation not less than the block width".to_string()));
        }
        self.prp.inverse(permutation)
    }

    /// Start the left part of a ciphertext for this cipher.
    pub(crate) fn new_left(&self) -> (r: LeftCipherText)
        ensures
            r.view().f.len() == self.blocks(),
            r.view().px.len() == self.blocks(),
    {
        LeftCipherText::new(self.n)
    }

    /// Start the right part of a ciphertext for this cipher, drawing its nonce base.
    pub(crate) fn new_right(&mut self) -> (r: RightCipherText)
        requires
            old(self).wf(),
        ensures
            final(self).wf(),
            final(self).same_key(*old(self)),
            r.wf(old(self).blocks(), old(self).width(), old(self).arity()),
    {
        let nb = self.fill_nonce();
        RightCipherText::new(nb, self.n, self.w, self.m)
    }
}

} // verus!
