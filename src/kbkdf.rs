//! Key-based key derivation in counter mode (NIST SP 800-108), with CMAC as the keyed MAC.
//!
//! Block `i` of the output is `CMAC(K, BE16(i) ‖ 0x00 ‖ id)`; the blocks are concatenated and
//! the result cut to the length asked for. The MAC is AES-256 based for a 32-byte root key and
//! AES-128 based for a 16-byte one.

use vstd::prelude::*;

use crate::error::Error;

verus! {

/// The CMAC-AES128 tag of a message under a 16-byte key.
pub uninterp spec fn cmac128_of(key: Seq<u8>, msg: Seq<u8>) -> Seq<u8>;

/// The CMAC-AES256 tag of a message under a 32-byte key.
pub uninterp spec fn cmac256_of(key: Seq<u8>, msg: Seq<u8>) -> Seq<u8>;

/// Relies on cmac's `Cmac<Aes128>` (with aes's `Aes128`): the 16-byte CMAC tag of `msg`, which
/// depends on the key and the message alone.
#[verifier::external_body]
pub(crate) fn cmac_aes128(key: &[u8; 16], msg: &[u8]) -> (r: [u8; 16])
    ensures
        r@ == cmac128_of(key@, msg@),
{
    let mut mac = <cmac::Cmac<aes::Aes128> as cmac::Mac>::new(&(*key).into());
    cmac::Mac::update(&mut mac, msg);
    let tag = cmac::Mac::finalize(mac).into_bytes();
    let mut r = [0u8; 16];
    r.copy_from_slice(&tag);
    r
}

/// Relies on cmac's `Cmac<Aes256>` (with aes's `Aes256`): the 16-byte CMAC tag of `msg`, which
/// depends on the key and the message alone.
#[verifier::external_body]
fn cmac_aes256(key: &[u8; 32], msg: &[u8]) -> (r: [u8; 16])
    ensures
        r@ == cmac256_of(key@, msg@),
{
    let mut mac = <cmac::Cmac<aes::Aes256> as cmac::Mac>::new(&(*key).into());
    cmac::Mac::update(&mut mac, msg);
    let tag = cmac::Mac::finalize(mac).into_bytes();
    let mut r = [0u8; 16];
    r.copy_from_slice(&tag);
    r
}

/// The bytes of `v` as a big-endian 16-bit integer.
pub open spec fn be16(v: nat) -> Seq<u8> {
    seq![(v / 256) as u8, (v % 256) as u8]
}

/// The MAC input for block `i` of a derivation with identifier `id`.
pub open spec fn kdf_message(i: nat, id: Seq<u8>) -> Seq<u8> {
    be16(i) + seq![0u8] + id
}

/// The MAC under `key`: AES-128 based for a 16-byte key, AES-256 based otherwise.
pub open spec fn mac_of(key: Seq<u8>, msg: Seq<u8>) -> Seq<u8> {
    if key.len() == 16 {
        cmac128_of(key, msg)
    } else {
        cmac256_of(key, msg)
    }
}

/// The first `count` output blocks of the derivation, concatenated.
pub open spec fn kdf_stream(key: Seq<u8>, id: Seq<u8>, count: nat) -> Seq<u8>
    decreases count,
{
    if count == 0 {
        Seq::empty()
    } else {
        kdf_stream(key, id, (count - 1) as nat) + mac_of(key, kdf_message((count - 1) as nat, id))
    }
}

/// The number of MAC blocks needed for `len` bytes of output.
pub open spec fn kdf_blocks(len: nat) -> nat {
    (len + 15) / 16
}

/// The `len` bytes derived from `key` for the identifier `id`.
pub open spec fn kdf_output(key: Seq<u8>, id: Seq<u8>, len: nat) -> Seq<u8> {
    kdf_stream(key, id, kdf_blocks(len)).take(len as int)
}

/// The largest output, in bytes, that a derivation can produce.
pub const MAX_DERIVED_LEN: usize = 1048560;

/// Counter-mode derivation under a 16- or 32-byte key.
fn derive_with(key16: &[u8; 16], key32: &[u8; 32], wide: bool, len: usize, id: &[u8]) -> (r:
    Result<Vec<u8>, Error>)
    ensures
        len <= MAX_DERIVED_LEN <==> r is Ok,
        r is Ok ==> r->Ok_0@.len() == len,
        r is Ok ==> r->Ok_0@ == kdf_output(if wide { key32@ } else { key16@ }, id@, len as nat),
        r is Err ==> r->Err_0 is KeyError,
{
    if len > MAX_DERIVED_LEN {
        return Err(Error::KeyError("requested derived key is longer than supported".to_string()));
    }
    let ghost key = if wide { key32@ } else { key16@ };
    let count: usize = len / 16 + if len % 16 == 0 { 0 } else { 1 };
    assert(count == kdf_blocks(len as nat));
    let mut out: Vec<u8> = Vec::new();
    let mut i: usize = 0;
    while i < count
        invariant
            count == kdf_blocks(len as nat),
            len <= MAX_DERIVED_LEN,
            key == (if wide { key32@ } else { key16@ }),
            i <= count,
            kdf_stream(key, id@, i as nat).len() == 16 * i,
            out@.len() == 16 * i,
            out@ == kdf_stream(key, id@, i as nat),
        decreases count - i,
    {
        let mut msg: Vec<u8> = Vec::new();
        msg.push((i / 256) as u8);
        msg.push((i % 256) as u8);
        msg.push(0u8);
        let mut j: usize = 0;
        while j < id.len()
            invariant
                j <= id@.len(),
                msg@ == be16(i as nat) + seq![0u8] + id@.take(j as int),
            decreases id@.len() - j,
        {
            msg.push(id[j]);
            j = j + 1;
            assert(msg@ =~= be16(i as nat) + seq![0u8] + id@.take(j as int));
        }
        assert(id@.take(j as int) =~= id@);
        let block: [u8; 16] = if wide {
            cmac_aes256(key32, msg.as_slice())
        } else {
            cmac_aes128(key16, msg.as_slice())
        };
        assert(block@ == mac_of(key, kdf_message(i as nat, id@)));
        let mut k: usize = 0;
        let ghost start = out@;
        while k < 16
            invariant
                k <= 16,
                out@ == start + block@.take(k as int),
            decreases 16 - k,
        {
            out.push(block[k]);
            k = k + 1;
            assert(out@ =~= start + block@.take(k as int));
        }
        assert(block@.take(16) =~= block@);
        i = i + 1;
    }
    out.truncate(len);
    proof {
        assert(16 * count >= len);
    }
    assert(out@ =~= kdf_output(key, id@, len as nat));
    Ok(out)
}

/// The key-generating side of a key derivation function.
pub trait KBKDF {
    /// The root key from which every subkey is derived.
    spec fn root_key(&self) -> Seq<u8>;

    /// Derive `len` bytes for the identifier `id`.
    ///
    /// The same root key and identifier always give the same bytes, so distinct uses of one
    /// root key need distinct identifiers. Fails with a key error when more than
    /// `MAX_DERIVED_LEN` bytes are asked for.
    fn derive_key(&self, len: usize, id: &[u8]) -> (r: Result<Vec<u8>, Error>)
        ensures
            len <= MAX_DERIVED_LEN <==> r is Ok,
            r is Ok ==> r->Ok_0@.len() == len,
            r is Ok ==> r->Ok_0@ == kdf_output(self.root_key(), id@, len as nat),
            r is Err ==> r->Err_0 is KeyError,
    ;
}

/// Creation of a key derivation function from a 32-byte root key.
pub trait KBKDFInit: KBKDF + Sized {
    /// Create a derivation function from its root key.
    fn new(root_key: &[u8; 32]) -> (r: Result<Self, Error>)
        ensures
            r is Ok,
            r->Ok_0.root_key() == root_key@,
    ;
}

/// Relies on zeroize's `Zeroize` for byte arrays: every byte is overwritten with zero, by writes
/// that the compiler does not optimise away.
#[verifier::external_body]
pub(crate) fn wipe32(buf: &mut [u8; 32])
    ensures
        final(buf)@ == Seq::new(32, |i: int| 0u8),
    opens_invariants none
    no_unwind
{
    zeroize::Zeroize::zeroize(buf)
}

/// Relies on zeroize's `Zeroize` for byte arrays: every byte is overwritten with zero, by writes
/// that the compiler does not optimise away.
#[verifier::external_body]
pub(crate) fn wipe16(buf: &mut [u8; 16])
    ensures
        final(buf)@ == Seq::new(16, |i: int| 0u8),
    opens_invariants none
    no_unwind
{
    zeroize::Zeroize::zeroize(buf)
}

/// Relies on zeroize's `Zeroize` for `Vec<u8>`: every byte is overwritten with zero, by writes
/// that the compiler does not optimise away, and the vector is left empty.
#[verifier::external_body]
pub(crate) fn wipe_bytes(buf: &mut Vec<u8>)
    ensures
        final(buf)@.len() == 0,
{
    zeroize::Zeroize::zeroize(buf)
}

/// A key derivation function whose root key is 32 bytes, using CMAC-AES256.
pub struct CMACAES256 {
    /// The key from which every subkey is derived.
    root_key: [u8; 32],
}

impl CMACAES256 {
    /// The root key.
    pub closed spec fn key(&self) -> Seq<u8> {
        self.root_key@
    }
}

impl KBKDFInit for CMACAES256 {
    fn new(root_key: &[u8; 32]) -> (r: Result<CMACAES256, Error>) {
        Ok(CMACAES256 { root_key: *root_key })
    }
}

impl KBKDF for CMACAES256 {
    open spec fn root_key(&self) -> Seq<u8> {
        self.key()
    }

    fn derive_key(&self, len: usize, id: &[u8]) -> (r: Result<Vec<u8>, Error>) {
        derive_with(&[0u8; 16], &self.root_key, true, len, id)
    }
}

impl Drop for CMACAES256 {
    /// The root key is wiped when the derivation function goes away.
    fn drop(&mut self)
        opens_invariants none
        no_unwind
    {
        wipe32(&mut self.root_key);
    }
}

/// A key derivation function whose root key is 16 bytes, using CMAC-AES128.
pub struct CMACAES128 {
    /// The key from which every subkey is derived.
    root_key: [u8; 16],
}

impl CMACAES128 {
    /// The root key.
    pub closed spec fn key(&self) -> Seq<u8> {
        self.root_key@
    }

    /// Create a derivation function from a 16-byte root key.
    pub fn new(root_key: &[u8; 16]) -> (r: Result<CMACAES128, Error>)
        ensures
            r is Ok,
            r->Ok_0.key() == root_key@,
    {
        Ok(CMACAES128 { root_key: *root_key })
    }
}

impl KBKDF for CMACAES128 {
    open spec fn root_key(&self) -> Seq<u8> {
        self.key()
    }

    fn derive_key(&self, len: usize, id: &[u8]) -> (r: Result<Vec<u8>, Error>) {
        derive_with(&self.root_key, &[0u8; 32], false, len, id)
    }
}

impl Drop for CMACAES128 {
    /// The root key is wiped when the derivation function goes away.
    fn drop(&mut self)
        opens_invariants none
        no_unwind
    {
        wipe16(&mut self.root_key);
    }
}

} // verus!
