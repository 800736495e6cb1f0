//! The keyed hash that maps a PRF block and a nonce to a small integer in `[0, M)`.

use vstd::prelude::*;

use crate::error::Error;
use crate::kbkdf::{cmac128_of, cmac_aes128};

verus! {

/// The hash of `input` under `key`: the first byte of the CMAC-AES128 tag, modulo `m`.
pub open spec fn hf(m: u8, key: Seq<u8>, input: Seq<u8>) -> u8 {
    (cmac128_of(key, input)[0] % m) as u8
}

/// A keyed hash from a PRF block and a nonce to a small integer.
pub trait HashFunction {
    /// The hash of `input` under `key`, modulo `m`.
    spec fn hash_of(m: u8, key: Seq<u8>, input: Seq<u8>) -> u8;

    /// Hash `input` under `key` to a value in `[0, m)`; fails with a range error when `m` is 0.
    fn hash(m: u8, key: &[u8; 16], input: &[u8; 16]) -> (r: Result<u8, Error>)
        ensures
            m > 0 <==> r is Ok,
            r is Ok ==> r->Ok_0 == Self::hash_of(m, key@, input@) && r->Ok_0 < m,
            r is Err ==> r->Err_0 is RangeError,
    ;
}

/// A keyed hash built on CMAC with AES128.
#[derive(Debug, Clone, Copy)]
pub struct CMACAES128HF {}

impl HashFunction for CMACAES128HF {
    open spec fn hash_of(m: u8, key: Seq<u8>, input: Seq<u8>) -> u8 {
        hf(m, key, input)
    }

    fn hash(m: u8, key: &[u8; 16], input: &[u8; 16]) -> (r: Result<u8, Error>) {
        if m == 0 {
            return Err(Error::RangeError("the hash's modulus cannot be 0".to_string()));
        }
        let tag = cmac_aes128(key, input.as_slice());
        Ok(tag[0] % m)
    }
}

} // verus!
