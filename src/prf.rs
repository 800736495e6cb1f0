//! The pseudo-random function: AES-128 under a derived subkey, applied to a block index.

use vstd::prelude::*;

use crate::error::Error;
use crate::kbkdf::{kdf_output, wipe16, wipe_bytes, KBKDF};

verus! {

/// The AES-128 encryption of a 16-byte block under a 16-byte key.
pub uninterp spec fn aes128_of(key: Seq<u8>, block: Seq<u8>) -> Seq<u8>;

/// Relies on aes's `Aes128` (`KeyInit::new`, `BlockEncrypt::encrypt_block`): the encryption of
/// one block, which depends on the key and the block alone.
#[verifier::external_body]
fn aes128_encrypt(key: &[u8; 16], block: &[u8; 16]) -> (r: [u8; 16])
    ensures
        r@ == aes128_of(key@, block@),
{
    let c = <aes::Aes128 as aes::cipher::KeyInit>::new(&(*key).into());
    let mut b = aes::Block::from(*block);
    aes::cipher::BlockEncrypt::encrypt_block(&c, &mut b);
    let mut r = [0u8; 16];
    r.copy_from_slice(&b);
    r
}

/// The identifier under which the PRF's subkey is derived.
pub open spec fn prf_subkey_id() -> Seq<u8> {
    seq![65u8, 69u8, 83u8, 49u8, 50u8, 56u8, 80u8, 82u8, 70u8, 46u8, 115u8, 117u8, 98u8, 107u8, 101u8, 121u8]
}

/// The PRF's input block for `v`: `BE16(v)` followed by 14 zero bytes.
pub open spec fn prf_input(v: u16) -> Seq<u8> {
    seq![(v / 256) as u8, (v % 256) as u8] + Seq::new(14, |i: int| 0u8)
}

/// The PRF under `key` at `v`.
pub open spec fn prf_of(key: Seq<u8>, v: u16) -> Seq<u8> {
    aes128_of(key, prf_input(v))
}

/// A keyed function that expands a block index to a pseudo-random 16-byte block.
pub trait PseudoRandomFunction: Sized {
    /// The block for `v`.
    spec fn output(&self, v: u16) -> Seq<u8>;

    /// The pseudo-random block for `value`.
    fn randomise(&self, value: u16) -> (r: [u8; 16])
        ensures
            r@ == self.output(value),
    ;
}

/// Creation of a PRF keyed by a key derivation function.
pub trait PseudoRandomFunctionInit: PseudoRandomFunction {
    /// The subkey that keys the PRF.
    spec fn subkey(&self) -> Seq<u8>;

    /// Create the PRF whose key is derived from `kdf` under `"AES128PRF.subkey"`.
    fn new<K: KBKDF>(kdf: &K) -> (r: Result<Self, Error>)
        ensures
            r is Ok,
            r->Ok_0.subkey() == kdf_output(kdf.root_key(), prf_subkey_id(), 16),
    ;
}

/// A PRF built on AES-128.
pub struct AES128PRF {
    /// The AES key, derived from the root key.
    key: [u8; 16],
}

impl AES128PRF {
    /// The AES key.
    pub closed spec fn key(&self) -> Seq<u8> {
        self.key@
    }
}

impl PseudoRandomFunctionInit for AES128PRF {
    open spec fn subkey(&self) -> Seq<u8> {
        self.key()
    }

    fn new<K: KBKDF>(kdf: &K) -> (r: Result<AES128PRF, Error>) {
        // "AES128PRF.subkey"
        let id: Vec<u8> = vec![
            65u8, 69u8, 83u8, 49u8, 50u8, 56u8, 80u8, 82u8, 70u8, 46u8, 115u8, 117u8, 98u8, 107u8,
            101u8, 121u8,
        ];
        assert(id@ =~= prf_subkey_id());
        let sub = kdf.derive_key(16, id.as_slice());
        match sub {
            Ok(mut bytes) => {
                let key: [u8; 16] = [
                    bytes[0], bytes[1], bytes[2], bytes[3], bytes[4], bytes[5], bytes[6],
                    bytes[7], bytes[8], bytes[9], bytes[10], bytes[11], bytes[12], bytes[13],
                    bytes[14], bytes[15],
                ];
                assert(key@ =~= bytes@);
                wipe_bytes(&mut bytes);
                Ok(AES128PRF { key })
            },
            Err(e) => Err(e),
        }
    }
}

impl PseudoRandomFunction for AES128PRF {
    open spec fn output(&self, v: u16) -> Seq<u8> {
        prf_of(self.key(), v)
    }

    fn randomise(&self, value: u16) -> (r: [u8; 16]) {
        let block: [u8; 16] = [
            (value / 256) as u8, (value % 256) as u8, 0, 0, 0, 0, 0, 0, 0, 0, 0, 0, 0, 0, 0, 0,
        ];
        assert(block@ =~= prf_input(value));
        aes128_encrypt(&self.key, &block)
    }
}

impl Drop for AES128PRF {
    /// The AES key is wiped when the PRF goes away.
    fn drop(&mut self)
        opens_invariants none
        no_unwind
    {
        wipe16(&mut self.key);
    }
}

} // verus!
